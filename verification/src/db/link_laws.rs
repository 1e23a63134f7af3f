//! What holds of the links of stored rules.
use vstd::prelude::*;

use crate::db::commands::{
    command_ids, generated_names, is_declared, is_orphan, is_stale, orphans, outputs_of, stale_rows,
    stored, Chosen, StoreText, StoredText,
};
use crate::db::nodes::World;
use crate::db::rows::{is_named, new_id, unique_names, RowText};
use crate::db::store_laws::{
    a_name_finds_its_node, agree, has_command, lemma_choose, lemma_drop_rows, lemma_found,
    lemma_link_inputs_keep, lemma_link_order_only_keep, lemma_link_outputs_keep, lemma_rows_in,
    lemma_store_all, lemma_store_rule, lemma_unique_after_all, new_identifier_is_new, rules_agree,
};
use crate::db::tables::{TablesText, TupFlags};
use crate::types::{NodeType, TupId};

verus! {

/// Whether a node of a directory has one of some names.
pub open spec fn is_one_of(
    nodes: Map<TupId, RowText>,
    dir: TupId,
    names: Seq<Seq<char>>,
    x: TupId,
) -> bool {
    nodes.dom().contains(x) && nodes[x].dir == dir && names.contains(nodes[x].name)
}

/// Whether every normal and sticky link joins two nodes.
pub open spec fn links_join_nodes(t: TablesText) -> bool {
    &&& forall|l: (TupId, TupId)| #[trigger]
        t.normal.contains(l) ==> t.nodes.dom().contains(l.0) && t.nodes.dom().contains(l.1)
    &&& forall|l: (TupId, TupId)| #[trigger]
        t.sticky.contains(l) ==> t.nodes.dom().contains(l.0) && t.nodes.dom().contains(l.1)
}

/// Whether nodes stay while others come, each with its place, and with its type unless it
/// was a ghost.
spec fn grows(t: TablesText, u: TablesText) -> bool {
    forall|x: TupId| #[trigger]
        t.nodes.dom().contains(x) ==> {
            &&& u.nodes.dom().contains(x)
            &&& u.nodes[x].dir == t.nodes[x].dir
            &&& u.nodes[x].name == t.nodes[x].name
            &&& t.nodes[x].node_type != NodeType::GhostNode ==> u.nodes[x].node_type
                == t.nodes[x].node_type
        }
}

proof fn lemma_grows_trans(a: TablesText, b: TablesText, c: TablesText)
    requires
        grows(a, b),
        grows(b, c),
    ensures
        grows(a, c),
{
    assert forall|x: TupId| #[trigger] a.nodes.dom().contains(x) implies {
        &&& c.nodes.dom().contains(x)
        &&& c.nodes[x].dir == a.nodes[x].dir
        &&& c.nodes[x].name == a.nodes[x].name
        &&& a.nodes[x].node_type != NodeType::GhostNode ==> c.nodes[x].node_type
            == a.nodes[x].node_type
    } by {
        assert(b.nodes.dom().contains(x));
    }
}

proof fn lemma_select(t: TablesText, dir: TupId, name: Seq<char>, x: TupId)
    requires
        unique_names(t.nodes),
    ensures
        t.select(dir, name) == Some(x) <==> is_named(t.nodes, dir, name, x),
{
    lemma_found(t.nodes, dir, name);
    if is_named(t.nodes, dir, name, x) {
        a_name_finds_its_node(t.nodes, dir, name, x);
    }
}

proof fn lemma_contains_push(names: Seq<Seq<char>>, n: Seq<char>)
    requires
        names.len() > 0,
    ensures
        names.contains(n) <==> names.drop_last().contains(n) || n == names.last(),
{
    let before = names.drop_last();
    if before.contains(n) {
        let i = choose|i: int| 0 <= i < before.len() && before[i] == n;
        assert(names[i] == n);
    }
    if n == names.last() {
        assert(names[names.len() - 1] == n);
    }
    if names.contains(n) {
        let i = choose|i: int| 0 <= i < names.len() && names[i] == n;
        if i < before.len() {
            assert(before[i] == n);
        }
    }
}

// ------------------------------------------------ the links of one rule

proof fn lemma_inputs(t: TablesText, dir: TupId, cmd: TupId, names: Seq<Seq<char>>)
    requires
        unique_names(t.nodes),
    ensures
        ({
            let u = t.link_inputs(dir, cmd, names);
            &&& u.nodes == t.nodes
            &&& u.normal == t.normal
            &&& forall|l: (TupId, TupId)| #[trigger]
                u.sticky.contains(l) <==> t.sticky.contains(l) || (l.1 == cmd && is_one_of(
                    t.nodes,
                    dir,
                    names,
                    l.0,
                ))
        }),
    decreases names.len(),
{
    let u = t.link_inputs(dir, cmd, names);
    if names.len() > 0 {
        let before = names.drop_last();
        lemma_inputs(t, dir, cmd, before);
        let v = t.link_inputs(dir, cmd, before);
        lemma_found(v.nodes, dir, names.last());
        assert forall|l: (TupId, TupId)| #[trigger]
            u.sticky.contains(l) <==> t.sticky.contains(l) || (l.1 == cmd && is_one_of(
                t.nodes,
                dir,
                names,
                l.0,
            )) by {
            lemma_select(v, dir, names.last(), l.0);
            lemma_contains_push(names, t.nodes[l.0].name);
        }
    }
}

proof fn lemma_order_only(t: TablesText, dir: TupId, cmd: TupId, names: Seq<Seq<char>>)
    requires
        unique_names(t.nodes),
    ensures
        ({
            let u = t.link_order_only(dir, cmd, names);
            &&& u.nodes == t.nodes
            &&& forall|l: (TupId, TupId)| #[trigger]
                u.sticky.contains(l) <==> t.sticky.contains(l) || (l.1 == cmd && is_one_of(
                    t.nodes,
                    dir,
                    names,
                    l.0,
                ) && t.nodes[l.0].node_type == NodeType::Generated)
            &&& forall|l: (TupId, TupId)| #[trigger]
                u.normal.contains(l) <==> t.normal.contains(l) || (l.1 == cmd && is_one_of(
                    t.nodes,
                    dir,
                    names,
                    l.0,
                ) && t.nodes[l.0].node_type != NodeType::Generated)
        }),
    decreases names.len(),
{
    let u = t.link_order_only(dir, cmd, names);
    if names.len() > 0 {
        let before = names.drop_last();
        lemma_order_only(t, dir, cmd, before);
        let v = t.link_order_only(dir, cmd, before);
        lemma_found(v.nodes, dir, names.last());
        assert forall|l: (TupId, TupId)| #[trigger]
            u.sticky.contains(l) <==> t.sticky.contains(l) || (l.1 == cmd && is_one_of(
                t.nodes,
                dir,
                names,
                l.0,
            ) && t.nodes[l.0].node_type == NodeType::Generated) by {
            lemma_select(v, dir, names.last(), l.0);
            lemma_contains_push(names, t.nodes[l.0].name);
        }
        assert forall|l: (TupId, TupId)| #[trigger]
            u.normal.contains(l) <==> t.normal.contains(l) || (l.1 == cmd && is_one_of(
                t.nodes,
                dir,
                names,
                l.0,
            ) && t.nodes[l.0].node_type != NodeType::Generated) by {
            lemma_select(v, dir, names.last(), l.0);
            lemma_contains_push(names, t.nodes[l.0].name);
        }
    }
}

/// Whether an output is linked: it is found, it is no ghost, and where it is generated a
/// normal link leads to it from the command, from which it comes if `adopt` says so.
spec fn is_output(t: TablesText, dir: TupId, cmd: TupId, name: Seq<char>, adopt: bool) -> bool {
    match t.select(dir, name) {
        Some(id) => {
            &&& t.nodes[id].node_type != NodeType::GhostNode
            &&& t.nodes[id].node_type == NodeType::Generated ==> {
                &&& t.normal.contains((cmd, id))
                &&& adopt ==> t.nodes[id].srcid == cmd.0
            }
        },
        None => false,
    }
}

/// What linking outputs may change: normal links from the command to nodes of those
/// names, and where such nodes come from.
spec fn only_outputs(
    t: TablesText,
    u: TablesText,
    dir: TupId,
    cmd: TupId,
    names: Seq<Seq<char>>,
    adopt: bool,
) -> bool {
    &&& grows(t, u)
    &&& u.sticky == t.sticky
    &&& forall|l: (TupId, TupId)| #[trigger] t.normal.contains(l) ==> u.normal.contains(l)
    &&& forall|l: (TupId, TupId)| #[trigger]
        u.normal.contains(l) ==> t.normal.contains(l) || (l.0 == cmd && is_one_of(
            u.nodes,
            dir,
            names,
            l.1,
        ))
    &&& forall|x: TupId| #[trigger]
        t.nodes.dom().contains(x) ==> u.nodes[x].srcid == t.nodes[x].srcid || (u.nodes[x].srcid
            == cmd.0 && adopt && is_one_of(u.nodes, dir, names, x))
    &&& forall|x: TupId| #[trigger]
        u.nodes.dom().contains(x) && u.nodes[x].node_type == NodeType::Cmd
            ==> t.nodes.dom().contains(x) && t.nodes[x].node_type == NodeType::Cmd
}

proof fn lemma_output(t: TablesText, dir: TupId, cmd: TupId, name: Seq<char>, adopt: bool)
    requires
        unique_names(t.nodes),
        t.link_output(dir, cmd, name, adopt) is Ok,
        unique_names(t.link_output(dir, cmd, name, adopt)->Ok_0.nodes),
    ensures
        ({
            let u = t.link_output(dir, cmd, name, adopt)->Ok_0;
            &&& only_outputs(t, u, dir, cmd, seq![name], adopt)
            &&& is_output(u, dir, cmd, name, adopt)
        }),
{
    let u = t.link_output(dir, cmd, name, adopt)->Ok_0;
    let names = seq![name];
    assert(names[0] == name);
    lemma_found(t.nodes, dir, name);
    match t.select(dir, name) {
        Some(id) => {
            assert(t.nodes.dom().contains(id) && t.nodes[id].id == id);
            assert(u.nodes.dom() =~= t.nodes.dom());
            assert(is_named(u.nodes, dir, name, id));
            lemma_select(u, dir, name, id);
            assert(is_one_of(u.nodes, dir, names, id));
        },
        None => {
            let row = t.new_row(
                dir,
                name,
                NodeType::Generated,
                -1i64,
                0,
                cmd.0,
                None,
                None,
            )->Ok_0;
            new_identifier_is_new(t.nodes);
            assert(is_named(u.nodes, dir, name, row.id));
            lemma_select(u, dir, name, row.id);
            assert(is_one_of(u.nodes, dir, names, row.id));
        },
    }
}

proof fn lemma_output_stays(
    t: TablesText,
    u: TablesText,
    dir: TupId,
    cmd: TupId,
    names: Seq<Seq<char>>,
    adopt: bool,
    name: Seq<char>,
    was: bool,
)
    requires
        unique_names(t.nodes),
        unique_names(u.nodes),
        only_outputs(t, u, dir, cmd, names, adopt),
        is_output(t, dir, cmd, name, was),
    ensures
        is_output(u, dir, cmd, name, was),
{
    let id = t.select(dir, name)->0;
    lemma_select(t, dir, name, id);
    lemma_select(u, dir, name, id);
    assert(t.nodes.dom().contains(id));
}

proof fn lemma_only_outputs_trans(
    a: TablesText,
    b: TablesText,
    c: TablesText,
    dir: TupId,
    cmd: TupId,
    before: Seq<Seq<char>>,
    names: Seq<Seq<char>>,
    adopt: bool,
)
    requires
        names.len() > 0,
        before == names.drop_last(),
        only_outputs(a, b, dir, cmd, before, adopt),
        only_outputs(b, c, dir, cmd, seq![names.last()], adopt),
    ensures
        only_outputs(a, c, dir, cmd, names, adopt),
{
    let one = seq![names.last()];
    lemma_grows_trans(a, b, c);
    assert(forall|n: Seq<char>| one.contains(n) ==> n == names.last());
    assert forall|l: (TupId, TupId)| #[trigger] c.normal.contains(l) implies a.normal.contains(l)
        || (l.0 == cmd && is_one_of(c.nodes, dir, names, l.1)) by {
        lemma_contains_push(names, c.nodes[l.1].name);
        if b.normal.contains(l) && !a.normal.contains(l) {
            assert(is_one_of(b.nodes, dir, before, l.1));
            assert(b.nodes.dom().contains(l.1));
        }
    }
    assert forall|x: TupId| #[trigger] a.nodes.dom().contains(x) implies c.nodes[x].srcid
        == a.nodes[x].srcid || (c.nodes[x].srcid == cmd.0 && adopt && is_one_of(
        c.nodes,
        dir,
        names,
        x,
    )) by {
        assert(b.nodes.dom().contains(x));
        lemma_contains_push(names, c.nodes[x].name);
    }
}

proof fn lemma_outputs(t: TablesText, dir: TupId, cmd: TupId, names: Seq<Seq<char>>, adopt: bool)
    requires
        unique_names(t.nodes),
        t.link_outputs(dir, cmd, names, adopt).1 is None,
    ensures
        ({
            let u = t.link_outputs(dir, cmd, names, adopt).0;
            &&& unique_names(u.nodes)
            &&& only_outputs(t, u, dir, cmd, names, adopt)
            &&& forall|i: int|
                0 <= i < names.len() ==> is_output(u, dir, cmd, #[trigger] names[i], adopt)
        }),
    decreases names.len(),
{
    let u = t.link_outputs(dir, cmd, names, adopt).0;
    lemma_link_outputs_keep(t, dir, cmd, names, adopt);
    if names.len() > 0 {
        let before = names.drop_last();
        lemma_outputs(t, dir, cmd, before, adopt);
        let v = t.link_outputs(dir, cmd, before, adopt).0;
        lemma_output(v, dir, cmd, names.last(), adopt);
        lemma_only_outputs_trans(t, v, u, dir, cmd, before, names, adopt);
        assert forall|i: int| 0 <= i < names.len() implies is_output(
            u,
            dir,
            cmd,
            #[trigger] names[i],
            adopt,
        ) by {
            if i < before.len() {
                assert(before[i] == names[i]);
                lemma_output_stays(v, u, dir, cmd, seq![names.last()], adopt, names[i], adopt);
            }
        }
    }
}

/// What the links of a rule are after it was stored, where `mid` are the nodes that were
/// there when they were made.
spec fn rule_is_linked(
    mid: TablesText,
    u: TablesText,
    dir: TupId,
    cmd: TupId,
    rule: StoreText,
) -> bool {
    &&& forall|x: TupId| #[trigger] is_one_of(mid.nodes, dir, rule.inputs, x) ==> u.sticky.contains((x, cmd))
    &&& forall|x: TupId| #[trigger]
        is_one_of(mid.nodes, dir, rule.order_only_inputs, x) ==> if mid.nodes[x].node_type
            == NodeType::Generated {
            u.sticky.contains((x, cmd))
        } else {
            u.normal.contains((x, cmd))
        }
    &&& forall|i: int|
        0 <= i < rule.outputs.len() ==> is_output(u, dir, cmd, #[trigger] rule.outputs[i], true)
    &&& forall|i: int|
        0 <= i < rule.extra_outputs.len() ==> is_output(
            u,
            dir,
            cmd,
            #[trigger] rule.extra_outputs[i],
            false,
        )
}

/// What storing a rule leaves of the links of others, and what it adds.
spec fn others_stay(
    t: TablesText,
    mid: TablesText,
    u: TablesText,
    dir: TupId,
    cmd: TupId,
    rule: StoreText,
) -> bool {
    &&& grows(t, mid)
    &&& grows(mid, u)
    &&& unique_names(mid.nodes)
    &&& unique_names(u.nodes)
    &&& forall|l: (TupId, TupId)|
        l.1 != cmd ==> (#[trigger] u.sticky.contains(l) <==> t.sticky.contains(l))
    &&& forall|l: (TupId, TupId)|
        l.0 != cmd && l.1 != cmd ==> (#[trigger] u.normal.contains(l) <==> t.normal.contains(l))
    &&& forall|l: (TupId, TupId)| #[trigger]
        u.sticky.contains(l) && l.1 == cmd ==> is_one_of(u.nodes, dir, rule.inputs, l.0) || (
        is_one_of(u.nodes, dir, rule.order_only_inputs, l.0) && u.nodes[l.0].node_type
            == NodeType::Generated) || (t.sticky.contains(l) && !t.nodes.dom().contains(cmd))
    &&& forall|l: (TupId, TupId)| #[trigger]
        u.normal.contains(l) && l.0 == cmd ==> l.1 == cmd || is_one_of(
            u.nodes,
            dir,
            rule.outputs,
            l.1,
        ) || is_one_of(u.nodes, dir, rule.extra_outputs, l.1) || (t.normal.contains(l)
            && !t.nodes.dom().contains(cmd))
    &&& forall|l: (TupId, TupId)| #[trigger]
        u.normal.contains(l) && l.1 == cmd ==> l.0 == cmd || is_one_of(
            u.nodes,
            dir,
            rule.order_only_inputs,
            l.0,
        ) || (t.normal.contains(l) && !t.nodes.dom().contains(cmd))
    &&& forall|x: TupId| #[trigger]
        t.nodes.dom().contains(x) ==> u.nodes[x].srcid == t.nodes[x].srcid || (u.nodes[x].srcid
            == cmd.0 && is_one_of(u.nodes, dir, rule.outputs, x))
    &&& forall|x: TupId| #[trigger]
        u.nodes.dom().contains(x) && u.nodes[x].node_type == NodeType::Cmd ==> x == cmd || (
        t.nodes.dom().contains(x) && t.nodes[x].node_type == NodeType::Cmd)
    &&& u.nodes.dom().contains(cmd)
}

proof fn lemma_choice_grows(w: World, dir: TupId, rule: StoreText)
    requires
        unique_names(w.tables.nodes),
    ensures
        ({
            let (u, c) = w.choose_command(dir, rule);
            &&& grows(w.tables, u.tables)
            &&& u.tables.normal == w.tables.normal
            &&& u.tables.sticky == w.tables.sticky
            &&& forall|x: TupId| #[trigger]
                w.tables.nodes.dom().contains(x) ==> u.tables.nodes[x].srcid
                    == w.tables.nodes[x].srcid
            &&& c matches Chosen::Node(cmd, existed) ==> u.tables.nodes.dom().contains(cmd) && (
            existed <==> w.tables.nodes.dom().contains(cmd))
            &&& forall|x: TupId| #[trigger]
                u.tables.nodes.dom().contains(x) && u.tables.nodes[x].node_type == NodeType::Cmd
                    ==> c == Chosen::Node(x, c->Node_1) || (w.tables.nodes.dom().contains(x)
                    && w.tables.nodes[x].node_type == NodeType::Cmd)
        }),
{
    let t = w.tables;
    let u = w.choose_command(dir, rule).0.tables;
    lemma_found(t.nodes, dir, rule.command);
    match t.select(dir, rule.command) {
        None => {
            if new_id(t.nodes) is Some {
                new_identifier_is_new(t.nodes);
            }
        },
        Some(x) => {
            assert(t.nodes.dom().contains(x) && t.nodes[x].id == x);
            assert(u.nodes.dom() =~= t.nodes.dom());
        },
    }
}

proof fn lemma_rule(w: World, dir: TupId, rule: StoreText)
    requires
        unique_names(w.tables.nodes),
        w.store_rule(dir, rule).1 is Some,
    ensures
        ({
            let mid = w.choose_command(dir, rule).0.tables;
            let (u, s, e) = w.store_rule(dir, rule);
            let cmd = s->0.cmd_id;
            &&& others_stay(w.tables, mid, u.tables, dir, cmd, rule)
            &&& rule_is_linked(mid, u.tables, dir, cmd, rule)
        }),
{
    lemma_choose(w, dir, rule);
    lemma_choice_grows(w, dir, rule);
    let (m, c) = w.choose_command(dir, rule);
    let mid = m.tables;
    let cmd = c->Node_0;
    let existed = c->Node_1;
    let t0 = if existed {
        mid.without_rule_links(cmd)
    } else {
        mid
    };
    let a = t0.link_inputs(dir, cmd, rule.inputs);
    let b = a.link_order_only(dir, cmd, rule.order_only_inputs);
    let d = b.link_outputs(dir, cmd, rule.outputs, true).0;
    let u = d.link_outputs(dir, cmd, rule.extra_outputs, false).0;
    lemma_inputs(t0, dir, cmd, rule.inputs);
    lemma_order_only(a, dir, cmd, rule.order_only_inputs);
    lemma_outputs(b, dir, cmd, rule.outputs, true);
    lemma_outputs(d, dir, cmd, rule.extra_outputs, false);
    assert(u == w.store_rule(dir, rule).0.tables);
    assert(grows(mid, b));
    lemma_grows_trans(mid, b, d);
    lemma_grows_trans(mid, d, u);
    let t = w.tables;
    assert(u.sticky == b.sticky);
    assert forall|x: TupId| #[trigger] is_one_of(mid.nodes, dir, rule.inputs, x) implies u.sticky.contains(
        (x, cmd),
    ) by {
        assert(a.sticky.contains((x, cmd)));
    }
    assert forall|x: TupId| #[trigger] is_one_of(mid.nodes, dir, rule.order_only_inputs, x) implies (
    if mid.nodes[x].node_type == NodeType::Generated {
        u.sticky.contains((x, cmd))
    } else {
        u.normal.contains((x, cmd))
    }) by {
        if mid.nodes[x].node_type == NodeType::Generated {
            assert(b.sticky.contains((x, cmd)));
        } else {
            assert(b.normal.contains((x, cmd)));
            assert(d.normal.contains((x, cmd)));
        }
    }
    assert forall|i: int| 0 <= i < rule.outputs.len() implies is_output(
        u,
        dir,
        cmd,
        #[trigger] rule.outputs[i],
        true,
    ) by {
        lemma_output_stays(d, u, dir, cmd, rule.extra_outputs, false, rule.outputs[i], true);
    }
    assert forall|l: (TupId, TupId)| #[trigger] u.sticky.contains(l) && l.1 == cmd implies
        is_one_of(u.nodes, dir, rule.inputs, l.0) || (is_one_of(
        u.nodes,
        dir,
        rule.order_only_inputs,
        l.0,
    ) && u.nodes[l.0].node_type == NodeType::Generated) || (t.sticky.contains(l)
        && !t.nodes.dom().contains(cmd)) by {
        assert(b.sticky.contains(l));
        if is_one_of(mid.nodes, dir, rule.inputs, l.0) || is_one_of(
            mid.nodes,
            dir,
            rule.order_only_inputs,
            l.0,
        ) {
            assert(mid.nodes.dom().contains(l.0));
        } else {
            assert(a.sticky.contains(l));
        }
    }
    assert forall|l: (TupId, TupId)| l.1 != cmd implies (#[trigger] u.sticky.contains(l)
        <==> t.sticky.contains(l)) by {
        assert(b.sticky.contains(l) <==> a.sticky.contains(l));
        assert(a.sticky.contains(l) <==> t0.sticky.contains(l));
    }
    assert forall|l: (TupId, TupId)| l.0 != cmd && l.1 != cmd implies (#[trigger] u.normal.contains(
        l,
    ) <==> t.normal.contains(l)) by {
        assert(u.normal.contains(l) <==> d.normal.contains(l));
        assert(d.normal.contains(l) <==> b.normal.contains(l));
        assert(b.normal.contains(l) <==> a.normal.contains(l));
    }
    assert forall|l: (TupId, TupId)| #[trigger] u.normal.contains(l) && l.0 == cmd implies l.1
        == cmd || is_one_of(u.nodes, dir, rule.outputs, l.1) || is_one_of(
        u.nodes,
        dir,
        rule.extra_outputs,
        l.1,
    ) || (t.normal.contains(l) && !t.nodes.dom().contains(cmd)) by {
        if d.normal.contains(l) {
            if b.normal.contains(l) {
                assert(l.1 == cmd || a.normal.contains(l));
            } else {
                assert(is_one_of(d.nodes, dir, rule.outputs, l.1));
                assert(d.nodes.dom().contains(l.1));
            }
        }
    }
    assert forall|l: (TupId, TupId)| #[trigger] u.normal.contains(l) && l.1 == cmd implies l.0
        == cmd || is_one_of(u.nodes, dir, rule.order_only_inputs, l.0) || (t.normal.contains(l)
        && !t.nodes.dom().contains(cmd)) by {
        if l.0 != cmd {
            assert(d.normal.contains(l));
            assert(b.normal.contains(l));
            if is_one_of(mid.nodes, dir, rule.order_only_inputs, l.0) {
                assert(mid.nodes.dom().contains(l.0));
            } else {
                assert(a.normal.contains(l));
            }
        }
    }
    assert forall|x: TupId| #[trigger] t.nodes.dom().contains(x) implies u.nodes[x].srcid
        == t.nodes[x].srcid || (u.nodes[x].srcid == cmd.0 && is_one_of(
        u.nodes,
        dir,
        rule.outputs,
        x,
    )) by {
        assert(mid.nodes.dom().contains(x));
        assert(b.nodes.dom().contains(x));
        assert(d.nodes.dom().contains(x));
    }
    assert(mid.nodes.dom().contains(cmd));
}

// ------------------------------------------------ the links of all rules

/// Whether no two of some rules have the same command.
pub open spec fn commands_differ(rules: Seq<StoreText>) -> bool {
    forall|i: int, j: int|
        0 <= i < j < rules.len() ==> (#[trigger] rules[i]).command != (#[trigger] rules[j]).command
}

/// Whether a name is there when a rule is stored: it was there before, or a rule before
/// this one has an output of that name.
pub open spec fn is_there(
    t: TablesText,
    dir: TupId,
    rules: Seq<StoreText>,
    k: int,
    name: Seq<char>,
) -> bool {
    ||| t.select(dir, name) is Some
    ||| exists|j: int|
        0 <= j < k && ((#[trigger] rules[j]).outputs.contains(name)
            || rules[j].extra_outputs.contains(name))
}

/// Whether a file that a rule generates comes from the command of one that has it among
/// its outputs.
pub open spec fn comes_from_one(
    srcid: i64,
    rules: Seq<StoreText>,
    done: Seq<StoredText>,
    name: Seq<char>,
) -> bool {
    exists|j: int|
        0 <= j < rules.len() && (#[trigger] rules[j]).outputs.contains(name) && srcid
            == done[j].cmd_id.0
}

/// What the links of one of some stored rules are, where `t` are the tables before.
spec fn links_of(
    t: TablesText,
    u: TablesText,
    dir: TupId,
    rules: Seq<StoreText>,
    done: Seq<StoredText>,
    k: int,
) -> bool {
    let cmd = done[k].cmd_id;
    let rule = rules[k];
    &&& forall|i: int| #![trigger rule.inputs[i]]
        0 <= i < rule.inputs.len() && is_there(t, dir, rules, k, rule.inputs[i]) ==> (u.select(
            dir,
            rule.inputs[i],
        ) matches Some(id) ==> u.sticky.contains((id, cmd)))
    &&& forall|i: int| #![trigger rule.order_only_inputs[i]]
        0 <= i < rule.order_only_inputs.len() && is_there(
            t,
            dir,
            rules,
            k,
            rule.order_only_inputs[i],
        ) ==> (u.select(dir, rule.order_only_inputs[i]) matches Some(id) ==> {
            &&& u.nodes[id].node_type == NodeType::Cmd || u.sticky.contains((id, cmd))
                || u.normal.contains((id, cmd))
            &&& t.nodes.dom().contains(id) && t.nodes[id].node_type == NodeType::Generated
                ==> u.sticky.contains((id, cmd))
        })
    &&& forall|i: int|
        0 <= i < rule.outputs.len() ==> is_output(u, dir, cmd, #[trigger] rule.outputs[i], false)
    &&& forall|i: int|
        0 <= i < rule.extra_outputs.len() ==> is_output(
            u,
            dir,
            cmd,
            #[trigger] rule.extra_outputs[i],
            false,
        )
    &&& forall|i: int| #![trigger rule.outputs[i]]
        0 <= i < rule.outputs.len() ==> (u.select(dir, rule.outputs[i]) matches Some(id) ==> (
        u.nodes[id].node_type == NodeType::Generated ==> comes_from_one(
            u.nodes[id].srcid,
            rules,
            done,
            rule.outputs[i],
        )))
    &&& links_join_nodes(t) ==> {
        &&& forall|x: TupId| #[trigger]
            u.sticky.contains((x, cmd)) ==> is_one_of(u.nodes, dir, rule.inputs, x) || (is_one_of(
                u.nodes,
                dir,
                rule.order_only_inputs,
                x,
            ) && u.nodes[x].node_type == NodeType::Generated)
        &&& forall|x: TupId| #[trigger]
            u.normal.contains((cmd, x)) ==> u.nodes[x].node_type == NodeType::Cmd || is_one_of(
                u.nodes,
                dir,
                rule.outputs,
                x,
            ) || is_one_of(u.nodes, dir, rule.extra_outputs, x)
    }
}

proof fn lemma_still_join(
    t: TablesText,
    mid: TablesText,
    u: TablesText,
    dir: TupId,
    cmd: TupId,
    rule: StoreText,
)
    requires
        links_join_nodes(t),
        others_stay(t, mid, u, dir, cmd, rule),
    ensures
        links_join_nodes(u),
{
    lemma_grows_trans(t, mid, u);
    assert forall|l: (TupId, TupId)| #[trigger] u.sticky.contains(l) implies u.nodes.dom().contains(
        l.0,
    ) && u.nodes.dom().contains(l.1) by {
        if t.sticky.contains(l) {
            assert(t.nodes.dom().contains(l.0) && t.nodes.dom().contains(l.1));
        }
    }
    assert forall|l: (TupId, TupId)| #[trigger] u.normal.contains(l) implies u.nodes.dom().contains(
        l.0,
    ) && u.nodes.dom().contains(l.1) by {
        if t.normal.contains(l) {
            assert(t.nodes.dom().contains(l.0) && t.nodes.dom().contains(l.1));
        }
    }
}

/// A name that was found is found under the same node.
proof fn lemma_same_node(t: TablesText, u: TablesText, dir: TupId, name: Seq<char>)
    requires
        unique_names(t.nodes),
        unique_names(u.nodes),
        grows(t, u),
        t.select(dir, name) is Some,
    ensures
        u.select(dir, name) == t.select(dir, name),
        t.nodes.dom().contains(t.select(dir, name)->0),
        is_named(t.nodes, dir, name, t.select(dir, name)->0),
{
    let id = t.select(dir, name)->0;
    lemma_select(t, dir, name, id);
    assert(t.nodes.dom().contains(id));
    lemma_select(u, dir, name, id);
}

/// What is there when a rule is stored is found in the tables at that time.
proof fn lemma_found_there(
    t: TablesText,
    v: TablesText,
    dir: TupId,
    rules: Seq<StoreText>,
    done: Seq<StoredText>,
    k: int,
    name: Seq<char>,
)
    requires
        unique_names(t.nodes),
        unique_names(v.nodes),
        grows(t, v),
        0 <= k,
        is_there(t, dir, rules, k, name),
        forall|j: int| 0 <= j < k ==> outputs_are(v, dir, done[j].cmd_id, #[trigger] rules[j]),
    ensures
        v.select(dir, name) is Some,
{
    if t.select(dir, name) is Some {
        lemma_same_node(t, v, dir, name);
    } else {
        let j = choose|j: int|
            0 <= j < k && ((#[trigger] rules[j]).outputs.contains(name)
                || rules[j].extra_outputs.contains(name));
        let r = rules[j];
        assert(outputs_are(v, dir, done[j].cmd_id, r));
        if r.outputs.contains(name) {
            let i = choose|i: int| 0 <= i < r.outputs.len() && r.outputs[i] == name;
            assert(is_output(v, dir, done[j].cmd_id, r.outputs[i], false));
        } else {
            let i = choose|i: int| 0 <= i < r.extra_outputs.len() && r.extra_outputs[i] == name;
            assert(is_output(v, dir, done[j].cmd_id, r.extra_outputs[i], false));
        }
    }
}

/// Whether the outputs of a rule are all linked.
spec fn outputs_are(t: TablesText, dir: TupId, cmd: TupId, rule: StoreText) -> bool {
    &&& forall|i: int|
        0 <= i < rule.outputs.len() ==> is_output(t, dir, cmd, #[trigger] rule.outputs[i], false)
    &&& forall|i: int|
        0 <= i < rule.extra_outputs.len() ==> is_output(
            t,
            dir,
            cmd,
            #[trigger] rule.extra_outputs[i],
            false,
        )
}

/// An output of another command stays linked.
proof fn lemma_other_output(
    t: TablesText,
    mid: TablesText,
    u: TablesText,
    dir: TupId,
    cmd: TupId,
    rule: StoreText,
    other: TupId,
    name: Seq<char>,
)
    requires
        unique_names(t.nodes),
        others_stay(t, mid, u, dir, cmd, rule),
        u.nodes[cmd].node_type == NodeType::Cmd,
        other != cmd,
        is_output(t, dir, other, name, false),
    ensures
        is_output(u, dir, other, name, false),
{
    lemma_grows_trans(t, mid, u);
    lemma_same_node(t, u, dir, name);
    let id = t.select(dir, name)->0;
    if u.nodes[id].node_type == NodeType::Generated {
        assert(t.normal.contains((other, id)));
        assert(u.normal.contains((other, id)) <==> t.normal.contains((other, id)));
    }
}

/// The links of a rule stay when another one is stored.
proof fn lemma_links_stay(
    t: TablesText,
    v: TablesText,
    mid: TablesText,
    u: TablesText,
    dir: TupId,
    cmd: TupId,
    rules: Seq<StoreText>,
    done: Seq<StoredText>,
    k: int,
)
    requires
        rules.len() > 0,
        done.len() == rules.len(),
        0 <= k < rules.len() - 1,
        unique_names(t.nodes),
        unique_names(v.nodes),
        grows(t, v),
        links_join_nodes(t) ==> links_join_nodes(v),
        others_stay(v, mid, u, dir, cmd, rules.last()),
        u.nodes[cmd].node_type == NodeType::Cmd,
        done[k].cmd_id != cmd,
        done.last().cmd_id == cmd,
        forall|j: int|
            0 <= j < rules.len() - 1 ==> links_of(
                t,
                v,
                dir,
                rules.drop_last(),
                done.drop_last(),
                j,
            ) && outputs_are(v, dir, done[j].cmd_id, #[trigger] rules[j]),
    ensures
        links_of(t, u, dir, rules, done, k),
        outputs_are(u, dir, done[k].cmd_id, rules[k]),
{
    let before = rules.drop_last();
    let had = done.drop_last();
    let rule = rules[k];
    let c = done[k].cmd_id;
    assert(before[k] == rule && had[k] == done[k]);
    assert(rules[k] == rule);
    assert(links_of(t, v, dir, before, had, k));
    lemma_grows_trans(v, mid, u);
    lemma_grows_trans(t, v, u);
    assert forall|n: Seq<char>| #[trigger] is_there(t, dir, rules, k, n) implies is_there(
        t,
        dir,
        before,
        k,
        n,
    ) && v.select(dir, n) is Some && u.select(dir, n) == v.select(dir, n) && is_named(
        v.nodes,
        dir,
        n,
        v.select(dir, n)->0,
    ) by {
        if t.select(dir, n) is None {
            let j = choose|j: int|
                0 <= j < k && ((#[trigger] rules[j]).outputs.contains(n)
                    || rules[j].extra_outputs.contains(n));
            assert(before[j] == rules[j]);
        }
        lemma_found_there(t, v, dir, rules, done, k, n);
        lemma_same_node(v, u, dir, n);
    }
    assert forall|i: int| #![trigger rule.inputs[i]]
        0 <= i < rule.inputs.len() && is_there(t, dir, rules, k, rule.inputs[i]) implies (u.select(
        dir,
        rule.inputs[i],
    ) matches Some(id) ==> u.sticky.contains((id, c))) by {
        let id = u.select(dir, rule.inputs[i])->0;
        assert(before[k].inputs[i] == rule.inputs[i]);
        assert(v.sticky.contains((id, c)));
        assert(u.sticky.contains((id, c)) <==> v.sticky.contains((id, c)));
    }
    assert forall|i: int| #![trigger rule.order_only_inputs[i]]
        0 <= i < rule.order_only_inputs.len() && is_there(
            t,
            dir,
            rules,
            k,
            rule.order_only_inputs[i],
        ) implies (u.select(dir, rule.order_only_inputs[i]) matches Some(id) ==> {
        &&& u.nodes[id].node_type == NodeType::Cmd || u.sticky.contains((id, c))
            || u.normal.contains((id, c))
        &&& t.nodes.dom().contains(id) && t.nodes[id].node_type == NodeType::Generated
            ==> u.sticky.contains((id, c))
    }) by {
        let id = u.select(dir, rule.order_only_inputs[i])->0;
        assert(before[k].order_only_inputs[i] == rule.order_only_inputs[i]);
        assert(u.sticky.contains((id, c)) <==> v.sticky.contains((id, c)));
        assert(v.nodes.dom().contains(id));
        if id != cmd {
            assert(u.normal.contains((id, c)) <==> v.normal.contains((id, c)));
        }
    }
    assert forall|i: int| 0 <= i < rule.outputs.len() implies is_output(
        u,
        dir,
        c,
        #[trigger] rule.outputs[i],
        false,
    ) by {
        assert(before[k].outputs[i] == rule.outputs[i]);
        lemma_other_output(v, mid, u, dir, cmd, rules.last(), c, rule.outputs[i]);
    }
    assert forall|i: int| 0 <= i < rule.extra_outputs.len() implies is_output(
        u,
        dir,
        c,
        #[trigger] rule.extra_outputs[i],
        false,
    ) by {
        assert(before[k].extra_outputs[i] == rule.extra_outputs[i]);
        lemma_other_output(v, mid, u, dir, cmd, rules.last(), c, rule.extra_outputs[i]);
    }
    assert forall|i: int| #![trigger rule.outputs[i]] 0 <= i < rule.outputs.len() implies (u.select(
        dir,
        rule.outputs[i],
    ) matches Some(id) ==> (u.nodes[id].node_type == NodeType::Generated ==> comes_from_one(
        u.nodes[id].srcid,
        rules,
        done,
        rule.outputs[i],
    ))) by {
        let n = rule.outputs[i];
        assert(before[k].outputs[i] == n);
        assert(is_output(v, dir, c, n, false));
        lemma_same_node(v, u, dir, n);
        let id = u.select(dir, n)->0;
        if u.nodes[id].node_type == NodeType::Generated {
            assert(v.nodes.dom().contains(id));
            assert(v.nodes[id].node_type == NodeType::Generated);
            if u.nodes[id].srcid == v.nodes[id].srcid {
                assert(comes_from_one(v.nodes[id].srcid, before, had, n));
                let j = choose|j: int|
                    0 <= j < before.len() && (#[trigger] before[j]).outputs.contains(n)
                        && v.nodes[id].srcid == had[j].cmd_id.0;
                assert(rules[j] == before[j] && done[j] == had[j]);
                assert(rules[j].outputs.contains(n));
            } else {
                let m = rules.len() - 1;
                assert(rules[m].outputs.contains(n));
                assert(done[m].cmd_id.0 == u.nodes[id].srcid);
            }
        }
    }
    if links_join_nodes(t) {
        assert forall|x: TupId| #[trigger] u.sticky.contains((x, c)) implies is_one_of(
            u.nodes,
            dir,
            rule.inputs,
            x,
        ) || (is_one_of(u.nodes, dir, rule.order_only_inputs, x) && u.nodes[x].node_type
            == NodeType::Generated) by {
            assert(u.sticky.contains((x, c)) <==> v.sticky.contains((x, c)));
            assert(v.nodes.dom().contains(x));
        }
        assert forall|x: TupId| #[trigger] u.normal.contains((c, x)) implies u.nodes[x].node_type
            == NodeType::Cmd || is_one_of(u.nodes, dir, rule.outputs, x) || is_one_of(
            u.nodes,
            dir,
            rule.extra_outputs,
            x,
        ) by {
            if x != cmd {
                assert(u.normal.contains((c, x)) <==> v.normal.contains((c, x)));
                assert(v.nodes.dom().contains(x));
            }
        }
    }
}

/// The links of the rule that was stored last.
proof fn lemma_last_links(
    t: TablesText,
    v: TablesText,
    mid: TablesText,
    u: TablesText,
    dir: TupId,
    cmd: TupId,
    rules: Seq<StoreText>,
    done: Seq<StoredText>,
)
    requires
        rules.len() > 0,
        done.len() == rules.len(),
        unique_names(t.nodes),
        unique_names(v.nodes),
        grows(t, v),
        links_join_nodes(t) ==> links_join_nodes(v),
        others_stay(v, mid, u, dir, cmd, rules.last()),
        rule_is_linked(mid, u, dir, cmd, rules.last()),
        u.nodes[cmd].node_type == NodeType::Cmd,
        done.last().cmd_id == cmd,
        forall|j: int|
            0 <= j < rules.len() - 1 ==> outputs_are(v, dir, done[j].cmd_id, #[trigger] rules[j]),
    ensures
        links_of(t, u, dir, rules, done, rules.len() - 1),
        outputs_are(u, dir, cmd, rules.last()),
{
    let k = rules.len() - 1;
    let rule = rules[k];
    assert(rule == rules.last() && done[k] == done.last());
    lemma_grows_trans(v, mid, u);
    lemma_grows_trans(t, v, mid);
    lemma_grows_trans(t, v, u);
    assert forall|n: Seq<char>| #[trigger] is_there(t, dir, rules, k, n) implies mid.select(dir, n)
        is Some && u.select(dir, n) == mid.select(dir, n) && is_named(
        mid.nodes,
        dir,
        n,
        mid.select(dir, n)->0,
    ) by {
        lemma_found_there(t, v, dir, rules, done, k, n);
        lemma_same_node(v, mid, dir, n);
        lemma_same_node(mid, u, dir, n);
    }
    assert forall|i: int| #![trigger rule.inputs[i]]
        0 <= i < rule.inputs.len() && is_there(t, dir, rules, k, rule.inputs[i]) implies (u.select(
        dir,
        rule.inputs[i],
    ) matches Some(id) ==> u.sticky.contains((id, cmd))) by {
        let id = u.select(dir, rule.inputs[i])->0;
        assert(rule.inputs.contains(rule.inputs[i]));
        assert(is_one_of(mid.nodes, dir, rule.inputs, id));
    }
    assert forall|i: int| #![trigger rule.order_only_inputs[i]]
        0 <= i < rule.order_only_inputs.len() && is_there(
            t,
            dir,
            rules,
            k,
            rule.order_only_inputs[i],
        ) implies (u.select(dir, rule.order_only_inputs[i]) matches Some(id) ==> {
        &&& u.nodes[id].node_type == NodeType::Cmd || u.sticky.contains((id, cmd))
            || u.normal.contains((id, cmd))
        &&& t.nodes.dom().contains(id) && t.nodes[id].node_type == NodeType::Generated
            ==> u.sticky.contains((id, cmd))
    }) by {
        let id = u.select(dir, rule.order_only_inputs[i])->0;
        assert(rule.order_only_inputs.contains(rule.order_only_inputs[i]));
        assert(is_one_of(mid.nodes, dir, rule.order_only_inputs, id));
    }
    assert forall|i: int| 0 <= i < rule.outputs.len() implies is_output(
        u,
        dir,
        cmd,
        #[trigger] rule.outputs[i],
        false,
    ) by {
        assert(is_output(u, dir, cmd, rule.outputs[i], true));
    }
    assert forall|i: int| #![trigger rule.outputs[i]] 0 <= i < rule.outputs.len() implies (u.select(
        dir,
        rule.outputs[i],
    ) matches Some(id) ==> (u.nodes[id].node_type == NodeType::Generated ==> comes_from_one(
        u.nodes[id].srcid,
        rules,
        done,
        rule.outputs[i],
    ))) by {
        assert(is_output(u, dir, cmd, rule.outputs[i], true));
        assert(rules[k].outputs.contains(rule.outputs[i]));
    }
}

proof fn lemma_all_links(w: World, dir: TupId, rules: Seq<StoreText>)
    requires
        unique_names(w.tables.nodes),
        commands_differ(rules),
        w.store_all(dir, rules).1.len() == rules.len(),
    ensures
        ({
            let (u, done, e) = w.store_all(dir, rules);
            &&& unique_names(u.tables.nodes)
            &&& grows(w.tables, u.tables)
            &&& links_join_nodes(w.tables) ==> links_join_nodes(u.tables)
            &&& forall|x: TupId| #[trigger]
                u.tables.nodes.dom().contains(x) && u.tables.nodes[x].node_type == NodeType::Cmd
                    ==> command_ids(done).contains(x) || (w.tables.nodes.dom().contains(x)
                    && w.tables.nodes[x].node_type == NodeType::Cmd)
            &&& forall|k: int|
                0 <= k < rules.len() ==> {
                    &&& links_of(w.tables, u.tables, dir, rules, done, k)
                    &&& outputs_are(u.tables, dir, done[k].cmd_id, #[trigger] rules[k])
                }
        }),
    decreases rules.len(),
{
    let t = w.tables;
    lemma_unique_after_all(w, dir, rules);
    if rules.len() > 0 {
        let before = rules.drop_last();
        let (vw, had, e) = w.store_all(dir, before);
        let (uw, done, f) = w.store_all(dir, rules);
        let v = vw.tables;
        let u = uw.tables;
        let last = rules.last();
        assert(commands_differ(before)) by {
            assert forall|i: int, j: int| 0 <= i < j < before.len() implies (
            #[trigger] before[i]).command != (#[trigger] before[j]).command by {
                assert(before[i] == rules[i] && before[j] == rules[j]);
            }
        }
        lemma_agree(rules);
        lemma_agree(before);
        lemma_store_all(w, dir, rules);
        lemma_store_all(w, dir, before);
        lemma_all_links(w, dir, before);
        let s = vw.store_rule(dir, last).1;
        assert(s is Some && done == had.push(s->0));
        let cmd = s->0.cmd_id;
        let mid = vw.choose_command(dir, last).0.tables;
        lemma_rule(vw, dir, last);
        lemma_grows_trans(v, mid, u);
        lemma_grows_trans(t, v, u);
        if links_join_nodes(t) {
            lemma_still_join(v, mid, u, dir, cmd, last);
        }
        assert(done.drop_last() =~= had);
        assert(done.last() == s->0);
        let m = rules.len() - 1;
        assert(done[m] == s->0);
        assert(has_command(u, dir, done[m].cmd_id, rules[m]));
        assert forall|j: int| 0 <= j < m implies outputs_are(
            v,
            dir,
            done[j].cmd_id,
            #[trigger] rules[j],
        ) && links_of(t, v, dir, before, had, j) by {
            assert(before[j] == rules[j]);
            assert(had[j] == done[j]);
        }
        lemma_last_links(t, v, mid, u, dir, cmd, rules, done);
        assert forall|x: TupId| #[trigger]
            u.nodes.dom().contains(x) && u.nodes[x].node_type == NodeType::Cmd implies command_ids(
            done,
        ).contains(x) || (t.nodes.dom().contains(x) && t.nodes[x].node_type == NodeType::Cmd) by {
            if x == cmd {
                assert(done[m].cmd_id == x);
            } else if command_ids(had).contains(x) {
                let j = choose|j: int| 0 <= j < had.len() && (#[trigger] had[j]).cmd_id == x;
                assert(done[j].cmd_id == x);
            } else {
                assert(v.nodes.dom().contains(x));
            }
        }
        assert forall|k: int| 0 <= k < rules.len() implies {
            &&& links_of(t, u, dir, rules, done, k)
            &&& outputs_are(u, dir, done[k].cmd_id, #[trigger] rules[k])
        } by {
            if k < m {
                assert(done[k] == stored(dir, done[k].cmd_id, rules[k]));
                assert(has_command(u, dir, done[k].cmd_id, rules[k]));
                assert(rules[k].command != rules[m].command);
                lemma_links_stay(t, v, mid, u, dir, cmd, rules, done, k);
            }
        }
    }
}

proof fn lemma_agree(rules: Seq<StoreText>)
    requires
        commands_differ(rules),
    ensures
        rules_agree(rules),
{
    assert forall|i: int, j: int| 0 <= i < rules.len() && 0 <= j < rules.len() implies agree(
        #[trigger] rules[i],
        #[trigger] rules[j],
    ) by {
        if i < j {
            assert(rules[i].command != rules[j].command);
        } else if j < i {
            assert(rules[j].command != rules[i].command);
        }
    }
}

// ------------------------------------------------ what goes

proof fn lemma_drop_links(t: TablesText, rows: Seq<RowText>)
    ensures
        ({
            let u = t.drop_rows(rows);
            &&& forall|l: (TupId, TupId)| #[trigger]
                u.sticky.contains(l) <==> t.sticky.contains(l) && !has_row(rows, l.0) && !has_row(
                    rows,
                    l.1,
                )
            &&& forall|l: (TupId, TupId)| #[trigger]
                u.normal.contains(l) <==> t.normal.contains(l) && !has_row(rows, l.0) && !has_row(
                    rows,
                    l.1,
                )
        }),
    decreases rows.len(),
{
    if rows.len() > 0 {
        let before = rows.drop_last();
        lemma_drop_links(t, before);
        assert forall|x: TupId| #[trigger] has_row(rows, x) <==> has_row(before, x) || rows.last().id
            == x by {
            if has_row(before, x) {
                let i = choose|i: int| 0 <= i < before.len() && (#[trigger] before[i]).id == x;
                assert(rows[i].id == x);
            }
            if rows.last().id == x {
                assert(rows[rows.len() - 1].id == x);
            }
            if has_row(rows, x) {
                let i = choose|i: int| 0 <= i < rows.len() && (#[trigger] rows[i]).id == x;
                if i < before.len() {
                    assert(before[i].id == x);
                }
            }
        }
        let v = t.drop_rows(before);
        let u = t.drop_rows(rows);
        assert forall|l: (TupId, TupId)| #[trigger] u.sticky.contains(l) <==> t.sticky.contains(l)
            && !has_row(rows, l.0) && !has_row(rows, l.1) by {
            assert(u.sticky.contains(l) <==> v.sticky.contains(l) && l.0 != rows.last().id && l.1
                != rows.last().id);
        }
        assert forall|l: (TupId, TupId)| #[trigger] u.normal.contains(l) <==> t.normal.contains(l)
            && !has_row(rows, l.0) && !has_row(rows, l.1) by {
            assert(u.normal.contains(l) <==> v.normal.contains(l) && l.0 != rows.last().id && l.1
                != rows.last().id);
        }
    } else {
        assert forall|x: TupId| !#[trigger] has_row(rows, x) by {}
    }
}

spec fn has_row(rows: Seq<RowText>, x: TupId) -> bool {
    exists|i: int| 0 <= i < rows.len() && (#[trigger] rows[i]).id == x
}

proof fn lemma_rows_push(rows: Seq<RowText>, r: RowText)
    requires
        rows.len() > 0,
    ensures
        rows.contains(r) <==> rows.drop_last().contains(r) || r == rows.last(),
{
    let before = rows.drop_last();
    if before.contains(r) {
        let i = choose|i: int| 0 <= i < before.len() && before[i] == r;
        assert(rows[i] == r);
    }
    if r == rows.last() {
        assert(rows[rows.len() - 1] == r);
    }
    if rows.contains(r) {
        let i = choose|i: int| 0 <= i < rows.len() && rows[i] == r;
        if i < before.len() {
            assert(before[i] == r);
        }
    }
}

proof fn lemma_outputs_of(rows: Seq<RowText>, cmd: TupId, r: RowText)
    ensures
        outputs_of(rows, cmd).contains(r) <==> rows.contains(r) && r.node_type
            == NodeType::Generated && r.srcid == cmd.0,
    decreases rows.len(),
{
    if rows.len() > 0 {
        lemma_outputs_of(rows.drop_last(), cmd, r);
        lemma_rows_push(rows, r);
        let s = outputs_of(rows, cmd);
        if rows.last().node_type == NodeType::Generated && rows.last().srcid == cmd.0 {
            lemma_rows_push(s, r);
            assert(s.drop_last() =~= outputs_of(rows.drop_last(), cmd));
        }
    }
}

/// Whether a row is one of a stale command, or of a file that such a command makes.
spec fn is_left(rows: Seq<RowText>, active: Set<TupId>, r: RowText) -> bool {
    exists|s: RowText| #[trigger]
        rows.contains(s) && is_stale(s, active) && (r == s || (r.node_type == NodeType::Generated
            && r.srcid == s.id.0))
}

proof fn lemma_stale_rows(
    all: Seq<RowText>,
    rows: Seq<RowText>,
    active: Set<TupId>,
    r: RowText,
)
    requires
        forall|x: RowText| #[trigger] rows.contains(x) ==> all.contains(x),
    ensures
        stale_rows(all, rows, active).contains(r) <==> all.contains(r) && is_left(rows, active, r),
    decreases rows.len(),
{
    let now = stale_rows(all, rows, active);
    if rows.len() > 0 {
        let before = rows.drop_last();
        let last = rows.last();
        assert forall|x: RowText| #[trigger] before.contains(x) implies all.contains(x) by {
            lemma_rows_push(rows, x);
        }
        assert(rows[rows.len() - 1] == last);
        assert(rows.contains(last));
        lemma_stale_rows(all, before, active, r);
        assert(is_left(rows, active, r) <==> is_left(before, active, r) || (is_stale(last, active)
            && (r == last || (r.node_type == NodeType::Generated && r.srcid == last.id.0)))) by {
            if is_left(before, active, r) {
                let s = choose|s: RowText| #[trigger]
                    before.contains(s) && is_stale(s, active) && (r == s || (r.node_type
                        == NodeType::Generated && r.srcid == s.id.0));
                lemma_rows_push(rows, s);
                assert(rows.contains(s));
            }
            if is_left(rows, active, r) {
                let s = choose|s: RowText| #[trigger]
                    rows.contains(s) && is_stale(s, active) && (r == s || (r.node_type
                        == NodeType::Generated && r.srcid == s.id.0));
                lemma_rows_push(rows, s);
                if before.contains(s) {
                    assert(is_left(before, active, r));
                }
            }
        }
        if is_stale(last, active) {
            let had = stale_rows(all, before, active);
            let made = outputs_of(all, last.id);
            lemma_outputs_of(all, last.id, r);
            lemma_rows_push(now, r);
            assert(now.drop_last() =~= had + made);
            lemma_rows_concat(had, made, r);
        }
    } else if is_left(rows, active, r) {
        let s = choose|s: RowText| #[trigger]
            rows.contains(s) && is_stale(s, active) && (r == s || (r.node_type
                == NodeType::Generated && r.srcid == s.id.0));
        assert(false);
    }
}

proof fn lemma_rows_concat(a: Seq<RowText>, b: Seq<RowText>, r: RowText)
    ensures
        (a + b).contains(r) <==> a.contains(r) || b.contains(r),
{
    let all = a + b;
    if a.contains(r) {
        let i = choose|i: int| 0 <= i < a.len() && a[i] == r;
        assert(all[i] == r);
    }
    if b.contains(r) {
        let i = choose|i: int| 0 <= i < b.len() && b[i] == r;
        assert(all[a.len() + i] == r);
    }
    if all.contains(r) {
        let i = choose|i: int| 0 <= i < all.len() && all[i] == r;
        if i < a.len() {
            assert(a[i] == r);
        } else {
            assert(b[i - a.len()] == r);
        }
    }
}

proof fn lemma_orphans(
    rows: Seq<RowText>,
    active: Set<TupId>,
    rules: Seq<StoreText>,
    r: RowText,
)
    ensures
        orphans(rows, active, rules).contains(r) <==> rows.contains(r) && is_orphan(
            r,
            active,
            rules,
        ),
    decreases rows.len(),
{
    if rows.len() > 0 {
        lemma_orphans(rows.drop_last(), active, rules, r);
        lemma_rows_push(rows, r);
        let s = orphans(rows, active, rules);
        if is_orphan(rows.last(), active, rules) {
            lemma_rows_push(s, r);
            assert(s.drop_last() =~= orphans(rows.drop_last(), active, rules));
        }
    }
}

proof fn lemma_generated_names(rows: Seq<RowText>, n: Seq<char>)
    ensures
        generated_names(rows).contains(n) <==> exists|r: RowText| #[trigger]
            rows.contains(r) && r.node_type == NodeType::Generated && r.name == n,
    decreases rows.len(),
{
    if rows.len() > 0 {
        let before = rows.drop_last();
        let last = rows.last();
        lemma_generated_names(before, n);
        assert(rows[rows.len() - 1] == last);
        assert(rows.contains(last));
        let s = generated_names(rows);
        if exists|r: RowText| #[trigger]
            before.contains(r) && r.node_type == NodeType::Generated && r.name == n {
            let r = choose|r: RowText| #[trigger]
                before.contains(r) && r.node_type == NodeType::Generated && r.name == n;
            lemma_rows_push(rows, r);
            assert(rows.contains(r));
        }
        if exists|r: RowText| #[trigger]
            rows.contains(r) && r.node_type == NodeType::Generated && r.name == n {
            let r = choose|r: RowText| #[trigger]
                rows.contains(r) && r.node_type == NodeType::Generated && r.name == n;
            lemma_rows_push(rows, r);
        }
        if last.node_type == NodeType::Generated {
            lemma_contains_push(s, n);
            assert(s.drop_last() =~= generated_names(before));
        }
    }
}

/// What goes: the nodes of the directory that are stale commands, files of such
/// commands, or files of active commands that no rule declares.
spec fn goes(t: TablesText, dir: TupId, active: Set<TupId>, rules: Seq<StoreText>, x: TupId) -> bool {
    let r = t.nodes[x];
    &&& t.nodes.dom().contains(x)
    &&& r.dir == dir
    &&& {
        ||| is_stale(r, active)
        ||| is_orphan(r, active, rules)
        ||| {
            &&& r.node_type == NodeType::Generated
            &&& t.nodes.dom().contains(TupId(r.srcid))
            &&& t.nodes[TupId(r.srcid)].dir == dir
            &&& is_stale(t.nodes[TupId(r.srcid)], active)
        }
    }
}

proof fn lemma_goes(t: TablesText, dir: TupId, active: Set<TupId>, rules: Seq<StoreText>, x: TupId)
    requires
        unique_names(t.nodes),
    ensures
        has_row(t.leftovers(dir, active, rules), x) <==> goes(t, dir, active, rules, x),
        forall|r: RowText| #[trigger]
            t.leftovers(dir, active, rules).contains(r) ==> t.nodes.dom().contains(r.id)
                && t.nodes[r.id] == r && goes(t, dir, active, rules, r.id),
{
    let rows = t.rows_in(dir);
    let gone = t.leftovers(dir, active, rules);
    lemma_rows_in(t, dir);
    assert forall|r: RowText| #[trigger] gone.contains(r) <==> t.nodes.dom().contains(r.id)
        && t.nodes[r.id] == r && goes(t, dir, active, rules, r.id) by {
        lemma_rows_concat(stale_rows(rows, rows, active), orphans(rows, active, rules), r);
        lemma_stale_rows(rows, rows, active, r);
        lemma_orphans(rows, active, rules, r);
        if rows.contains(r) && is_left(rows, active, r) {
            let s = choose|s: RowText| #[trigger]
                rows.contains(s) && is_stale(s, active) && (r == s || (r.node_type
                    == NodeType::Generated && r.srcid == s.id.0));
            assert(t.nodes[s.id] == s);
            assert(TupId(r.srcid) == s.id || r == s);
        }
        if t.nodes.dom().contains(r.id) && t.nodes[r.id] == r && goes(t, dir, active, rules, r.id) {
            assert(rows.contains(r));
            if is_stale(r, active) {
                assert(is_left(rows, active, r));
            } else if !is_orphan(r, active, rules) {
                let s = t.nodes[TupId(r.srcid)];
                assert(s.id == TupId(r.srcid));
                assert(rows.contains(s));
                assert(is_left(rows, active, r));
            }
        }
    }
    if has_row(gone, x) {
        let i = choose|i: int| 0 <= i < gone.len() && (#[trigger] gone[i]).id == x;
        assert(gone.contains(gone[i]));
    }
    if goes(t, dir, active, rules, x) {
        let r = t.nodes[x];
        assert(r.id == x);
        assert(gone.contains(r));
        let i = choose|i: int| 0 <= i < gone.len() && gone[i] == r;
        assert(gone[i].id == x);
    }
}

/// What is left after rules were stored: every node but those that go, with the links
/// between them.
proof fn lemma_left(w: World, dir: TupId, rules: Seq<StoreText>)
    requires
        unique_names(w.tables.nodes),
        w.store_rules(dir, rules).1 is Ok,
    ensures
        ({
            let (uw, done, e) = w.store_all(dir, rules);
            let u = uw.tables;
            let (vw, r) = w.store_rules(dir, rules);
            let v = vw.tables;
            let active = command_ids(done);
            &&& unique_names(u.nodes)
            &&& unique_names(v.nodes)
            &&& r->Ok_0.0 == done
            &&& forall|x: TupId| #[trigger]
                v.nodes.dom().contains(x) <==> u.nodes.dom().contains(x) && !goes(
                    u,
                    dir,
                    active,
                    rules,
                    x,
                )
            &&& forall|x: TupId| #[trigger] v.nodes.dom().contains(x) ==> v.nodes[x] == u.nodes[x]
            &&& forall|l: (TupId, TupId)| #[trigger]
                v.sticky.contains(l) <==> u.sticky.contains(l) && !goes(u, dir, active, rules, l.0)
                    && !goes(u, dir, active, rules, l.1)
            &&& forall|l: (TupId, TupId)| #[trigger]
                v.normal.contains(l) <==> u.normal.contains(l) && !goes(u, dir, active, rules, l.0)
                    && !goes(u, dir, active, rules, l.1)
        }),
{
    let (uw, done, e) = w.store_all(dir, rules);
    let u = uw.tables;
    let active = command_ids(done);
    let gone = u.leftovers(dir, active, rules);
    lemma_unique_after_all(w, dir, rules);
    lemma_drop_rows(u, gone);
    lemma_drop_links(u, gone);
    assert forall|x: TupId| #[trigger] has_row(gone, x) <==> goes(u, dir, active, rules, x) by {
        lemma_goes(u, dir, active, rules, x);
    }
    let v = u.drop_rows(gone);
    assert forall|x: TupId| #[trigger] v.nodes.dom().contains(x) <==> u.nodes.dom().contains(x)
        && !goes(u, dir, active, rules, x) by {
        assert(has_row(gone, x) <==> goes(u, dir, active, rules, x));
    }
    assert forall|l: (TupId, TupId)| #[trigger]
        v.sticky.contains(l) <==> u.sticky.contains(l) && !goes(u, dir, active, rules, l.0) && !goes(
            u,
            dir,
            active,
            rules,
            l.1,
        ) by {
        assert(has_row(gone, l.0) <==> goes(u, dir, active, rules, l.0));
        assert(has_row(gone, l.1) <==> goes(u, dir, active, rules, l.1));
    }
    assert forall|l: (TupId, TupId)| #[trigger]
        v.normal.contains(l) <==> u.normal.contains(l) && !goes(u, dir, active, rules, l.0) && !goes(
            u,
            dir,
            active,
            rules,
            l.1,
        ) by {
        assert(has_row(gone, l.0) <==> goes(u, dir, active, rules, l.0));
        assert(has_row(gone, l.1) <==> goes(u, dir, active, rules, l.1));
    }
}

// ------------------------------------------------ the laws

/// What stored rules are taken from: names are unique, no two rules have the same command,
/// and none of them was left out.
pub open spec fn are_stored(w: World, dir: TupId, rules: Seq<StoreText>) -> bool {
    &&& unique_names(w.tables.nodes)
    &&& commands_differ(rules)
    &&& w.store_rules(dir, rules).1 matches Ok(r) && r.0.len() == rules.len()
}

proof fn lemma_command_stays(w: World, dir: TupId, rules: Seq<StoreText>, k: int)
    requires
        are_stored(w, dir, rules),
        0 <= k < rules.len(),
    ensures
        ({
            let (uw, done, e) = w.store_all(dir, rules);
            let cmd = done[k].cmd_id;
            &&& command_ids(done).contains(cmd)
            &&& has_command(uw.tables, dir, cmd, rules[k])
            &&& !goes(uw.tables, dir, command_ids(done), rules, cmd)
        }),
{
    lemma_agree(rules);
    lemma_store_all(w, dir, rules);
    let (uw, done, e) = w.store_all(dir, rules);
    assert(done[k] == stored(dir, done[k].cmd_id, rules[k]));
    lemma_unique_after_all(w, dir, rules);
    assert(uw.tables.nodes.dom().contains(done[k].cmd_id));
}

/// A name that is found at the end was found before anything went, under the same node.
proof fn lemma_found_before(w: World, dir: TupId, rules: Seq<StoreText>, name: Seq<char>)
    requires
        unique_names(w.tables.nodes),
        w.store_rules(dir, rules).1 is Ok,
        w.store_rules(dir, rules).0.tables.select(dir, name) is Some,
    ensures
        ({
            let u = w.store_all(dir, rules).0.tables;
            let v = w.store_rules(dir, rules).0.tables;
            let id = v.select(dir, name)->0;
            &&& u.select(dir, name) == Some(id)
            &&& v.nodes.dom().contains(id)
            &&& is_named(v.nodes, dir, name, id)
        }),
{
    let u = w.store_all(dir, rules).0.tables;
    let v = w.store_rules(dir, rules).0.tables;
    let id = v.select(dir, name)->0;
    lemma_left(w, dir, rules);
    lemma_select(v, dir, name, id);
    lemma_select(u, dir, name, id);
    assert(v.nodes.dom().contains(id));
}

/// After the rules of a directory were stored, a sticky link leads to the command of each
/// rule from every one of its inputs that is in the directory.
///
/// An input counts where it is there when its rule is stored: it was in the directory
/// before, or a rule before this one makes it.
pub proof fn every_input_is_linked(w: World, dir: TupId, rules: Seq<StoreText>)
    requires
        are_stored(w, dir, rules),
    ensures
        ({
            let (v, r) = w.store_rules(dir, rules);
            let done = r->Ok_0.0;
            forall|k: int, i: int|
                #![trigger rules[k].inputs[i]]
                0 <= k < rules.len() && 0 <= i < rules[k].inputs.len() && is_there(
                    w.tables,
                    dir,
                    rules,
                    k,
                    rules[k].inputs[i],
                ) ==> (v.tables.select(dir, rules[k].inputs[i]) matches Some(id)
                    ==> v.tables.sticky.contains((id, done[k].cmd_id)))
        }),
{
    lemma_all_links(w, dir, rules);
    lemma_left(w, dir, rules);
    let (u, done, e) = w.store_all(dir, rules);
    let v = w.store_rules(dir, rules).0;
    assert forall|k: int, i: int|
        #![trigger rules[k].inputs[i]]
        0 <= k < rules.len() && 0 <= i < rules[k].inputs.len() && is_there(
            w.tables,
            dir,
            rules,
            k,
            rules[k].inputs[i],
        ) implies (v.tables.select(dir, rules[k].inputs[i]) matches Some(id)
        ==> v.tables.sticky.contains((id, done[k].cmd_id))) by {
        let name = rules[k].inputs[i];
        if v.tables.select(dir, name) is Some {
            lemma_found_before(w, dir, rules, name);
            lemma_command_stays(w, dir, rules, k);
            let id = v.tables.select(dir, name)->0;
            let rule = rules[k];
            assert(links_of(w.tables, u.tables, dir, rules, done, k));
            assert(rule.inputs[i] == name);
            assert(u.tables.sticky.contains((id, done[k].cmd_id)));
            assert(v.tables.nodes.dom().contains(id));
        }
    }
}

/// After the rules of a directory were stored, a link leads to the command of each rule
/// from every one of its order-only inputs that is in the directory and is no command; a
/// sticky one where the input was generated before.
pub proof fn every_order_only_input_is_linked(w: World, dir: TupId, rules: Seq<StoreText>)
    requires
        are_stored(w, dir, rules),
    ensures
        ({
            let (v, r) = w.store_rules(dir, rules);
            let done = r->Ok_0.0;
            forall|k: int, i: int|
                #![trigger rules[k].order_only_inputs[i]]
                0 <= k < rules.len() && 0 <= i < rules[k].order_only_inputs.len() && is_there(
                    w.tables,
                    dir,
                    rules,
                    k,
                    rules[k].order_only_inputs[i],
                ) ==> (v.tables.select(dir, rules[k].order_only_inputs[i]) matches Some(id) ==> {
                    let cmd = done[k].cmd_id;
                    &&& v.tables.nodes[id].node_type == NodeType::Cmd || v.tables.sticky.contains(
                        (id, cmd),
                    ) || v.tables.normal.contains((id, cmd))
                    &&& w.tables.nodes.dom().contains(id) && w.tables.nodes[id].node_type
                        == NodeType::Generated ==> v.tables.sticky.contains((id, cmd))
                })
        }),
{
    lemma_all_links(w, dir, rules);
    lemma_left(w, dir, rules);
    let (u, done, e) = w.store_all(dir, rules);
    let v = w.store_rules(dir, rules).0;
    assert forall|k: int, i: int|
        #![trigger rules[k].order_only_inputs[i]]
        0 <= k < rules.len() && 0 <= i < rules[k].order_only_inputs.len() && is_there(
            w.tables,
            dir,
            rules,
            k,
            rules[k].order_only_inputs[i],
        ) implies (v.tables.select(dir, rules[k].order_only_inputs[i]) matches Some(id) ==> {
        let cmd = done[k].cmd_id;
        &&& v.tables.nodes[id].node_type == NodeType::Cmd || v.tables.sticky.contains((id, cmd))
            || v.tables.normal.contains((id, cmd))
        &&& w.tables.nodes.dom().contains(id) && w.tables.nodes[id].node_type
            == NodeType::Generated ==> v.tables.sticky.contains((id, cmd))
    }) by {
        let name = rules[k].order_only_inputs[i];
        if v.tables.select(dir, name) is Some {
            lemma_found_before(w, dir, rules, name);
            lemma_command_stays(w, dir, rules, k);
            let id = v.tables.select(dir, name)->0;
            let rule = rules[k];
            assert(links_of(w.tables, u.tables, dir, rules, done, k));
            assert(rule.order_only_inputs[i] == name);
            assert(v.tables.nodes.dom().contains(id));
        }
    }
}

/// After the rules of a directory were stored, every output of a rule is in the directory
/// unless a command had its name. Where it is generated, a normal link leads to it
/// from the command of each rule that has it, and it comes from the command of one.
pub proof fn every_output_is_linked(w: World, dir: TupId, rules: Seq<StoreText>)
    requires
        are_stored(w, dir, rules),
    ensures
        ({
            let (v, r) = w.store_rules(dir, rules);
            let done = r->Ok_0.0;
            &&& forall|k: int, i: int|
                #![trigger rules[k].outputs[i]]
                0 <= k < rules.len() && 0 <= i < rules[k].outputs.len() ==> match v.tables.select(
                    dir,
                    rules[k].outputs[i],
                ) {
                    Some(id) => {
                        &&& v.tables.nodes[id].node_type != NodeType::GhostNode
                        &&& v.tables.nodes[id].node_type == NodeType::Generated ==> {
                            &&& v.tables.normal.contains((done[k].cmd_id, id))
                            &&& comes_from_one(
                                v.tables.nodes[id].srcid,
                                rules,
                                done,
                                rules[k].outputs[i],
                            )
                        }
                    },
                    None => w.tables.select(dir, rules[k].outputs[i]) matches Some(x)
                        && w.tables.nodes[x].node_type == NodeType::Cmd,
                }
            &&& forall|k: int, i: int|
                #![trigger rules[k].extra_outputs[i]]
                0 <= k < rules.len() && 0 <= i < rules[k].extra_outputs.len() ==> (
                v.tables.select(dir, rules[k].extra_outputs[i]) matches Some(id) ==> (
                v.tables.nodes[id].node_type == NodeType::Generated ==> v.tables.normal.contains(
                    (done[k].cmd_id, id),
                )))
        }),
{
    lemma_all_links(w, dir, rules);
    lemma_left(w, dir, rules);
    let (uw, done, e) = w.store_all(dir, rules);
    let u = uw.tables;
    let active = command_ids(done);
    let v = w.store_rules(dir, rules).0.tables;
    assert forall|k: int, i: int|
        #![trigger rules[k].outputs[i]]
        0 <= k < rules.len() && 0 <= i < rules[k].outputs.len() implies match v.select(
        dir,
        rules[k].outputs[i],
    ) {
        Some(id) => {
            &&& v.nodes[id].node_type != NodeType::GhostNode
            &&& v.nodes[id].node_type == NodeType::Generated ==> {
                &&& v.normal.contains((done[k].cmd_id, id))
                &&& comes_from_one(v.nodes[id].srcid, rules, done, rules[k].outputs[i])
            }
        },
        None => w.tables.select(dir, rules[k].outputs[i]) matches Some(x)
            && w.tables.nodes[x].node_type == NodeType::Cmd,
    } by {
        let rule = rules[k];
        let name = rule.outputs[i];
        assert(links_of(w.tables, u, dir, rules, done, k));
        assert(rule.outputs[i] == name);
        assert(is_output(u, dir, done[k].cmd_id, rule.outputs[i], false));
        lemma_command_stays(w, dir, rules, k);
        if v.select(dir, name) is Some {
            lemma_found_before(w, dir, rules, name);
            assert(v.nodes.dom().contains(v.select(dir, name)->0));
        } else {
            let id = u.select(dir, name)->0;
            lemma_select(u, dir, name, id);
            lemma_select(v, dir, name, id);
            assert(!v.nodes.dom().contains(id));
            assert(goes(u, dir, active, rules, id));
            if u.nodes[id].node_type == NodeType::Generated {
                let srcid = u.nodes[id].srcid;
                assert(comes_from_one(srcid, rules, done, name));
                let j = choose|j: int|
                    0 <= j < rules.len() && (#[trigger] rules[j]).outputs.contains(name) && srcid
                        == done[j].cmd_id.0;
                assert(done[j].cmd_id == TupId(srcid));
                assert(active.contains(TupId(srcid)));
                assert(is_declared(rules, name));
                if u.nodes.dom().contains(TupId(srcid)) {
                    assert(u.nodes[TupId(srcid)].id == TupId(srcid));
                }
            }
            assert(u.nodes[id].id == id);
            assert(u.nodes[id].node_type == NodeType::Cmd && !active.contains(id));
            assert(w.tables.nodes.dom().contains(id));
            lemma_select(w.tables, dir, name, id);
        }
    }
    assert forall|k: int, i: int|
        #![trigger rules[k].extra_outputs[i]]
        0 <= k < rules.len() && 0 <= i < rules[k].extra_outputs.len() implies (v.select(
        dir,
        rules[k].extra_outputs[i],
    ) matches Some(id) ==> (v.nodes[id].node_type == NodeType::Generated ==> v.normal.contains(
        (done[k].cmd_id, id),
    ))) by {
        let rule = rules[k];
        let name = rule.extra_outputs[i];
        assert(links_of(w.tables, u, dir, rules, done, k));
        assert(is_output(u, dir, done[k].cmd_id, rule.extra_outputs[i], false));
        lemma_command_stays(w, dir, rules, k);
        if v.select(dir, name) is Some {
            lemma_found_before(w, dir, rules, name);
            assert(v.nodes.dom().contains(v.select(dir, name)->0));
        }
    }
}

/// After the rules of a directory were stored, nothing but the inputs of a rule and those
/// of its order-only inputs that are generated leads to its command by a sticky link, and
/// nothing but its outputs is reached from it by a normal link, commands left aside.
pub proof fn nothing_else_is_linked(w: World, dir: TupId, rules: Seq<StoreText>)
    requires
        are_stored(w, dir, rules),
        links_join_nodes(w.tables),
    ensures
        ({
            let (v, r) = w.store_rules(dir, rules);
            let done = r->Ok_0.0;
            &&& links_join_nodes(v.tables)
            &&& forall|k: int, x: TupId|
                #![trigger v.tables.sticky.contains((x, done[k].cmd_id))]
                0 <= k < rules.len() && v.tables.sticky.contains((x, done[k].cmd_id)) ==> is_one_of(
                    v.tables.nodes,
                    dir,
                    rules[k].inputs,
                    x,
                ) || (is_one_of(v.tables.nodes, dir, rules[k].order_only_inputs, x)
                    && v.tables.nodes[x].node_type == NodeType::Generated)
            &&& forall|k: int, x: TupId|
                #![trigger v.tables.normal.contains((done[k].cmd_id, x))]
                0 <= k < rules.len() && v.tables.normal.contains((done[k].cmd_id, x))
                    ==> v.tables.nodes[x].node_type == NodeType::Cmd || is_one_of(
                    v.tables.nodes,
                    dir,
                    rules[k].outputs,
                    x,
                ) || is_one_of(v.tables.nodes, dir, rules[k].extra_outputs, x)
        }),
{
    lemma_all_links(w, dir, rules);
    lemma_left(w, dir, rules);
    let (uw, done, e) = w.store_all(dir, rules);
    let u = uw.tables;
    let v = w.store_rules(dir, rules).0.tables;
    assert forall|l: (TupId, TupId)| #[trigger] v.sticky.contains(l) implies v.nodes.dom().contains(
        l.0,
    ) && v.nodes.dom().contains(l.1) by {
        assert(u.sticky.contains(l));
    }
    assert forall|l: (TupId, TupId)| #[trigger] v.normal.contains(l) implies v.nodes.dom().contains(
        l.0,
    ) && v.nodes.dom().contains(l.1) by {
        assert(u.normal.contains(l));
    }
    assert forall|k: int, x: TupId|
        #![trigger v.sticky.contains((x, done[k].cmd_id))]
        0 <= k < rules.len() && v.sticky.contains((x, done[k].cmd_id)) implies is_one_of(
        v.nodes,
        dir,
        rules[k].inputs,
        x,
    ) || (is_one_of(v.nodes, dir, rules[k].order_only_inputs, x) && v.nodes[x].node_type
        == NodeType::Generated) by {
        assert(links_of(w.tables, u, dir, rules, done, k)) by {
            assert(rules[k] == rules[k]);
        }
        assert(u.sticky.contains((x, done[k].cmd_id)));
        assert(v.nodes.dom().contains(x));
    }
    assert forall|k: int, x: TupId|
        #![trigger v.normal.contains((done[k].cmd_id, x))]
        0 <= k < rules.len() && v.normal.contains((done[k].cmd_id, x)) implies v.nodes[x].node_type
        == NodeType::Cmd || is_one_of(v.nodes, dir, rules[k].outputs, x) || is_one_of(
        v.nodes,
        dir,
        rules[k].extra_outputs,
        x,
    ) by {
        assert(links_of(w.tables, u, dir, rules, done, k)) by {
            assert(rules[k] == rules[k]);
        }
        assert(u.normal.contains((done[k].cmd_id, x)));
        assert(v.nodes.dom().contains(x));
    }
}

/// After the rules of a directory were stored, no generated file of it is left whose
/// command is one of theirs but which none of them declares, nor one whose command went.
/// What goes is named in the result if it was generated. Nodes of other directories stay,
/// and so does everything that is neither a command nor generated.
pub proof fn what_no_rule_makes_goes(w: World, dir: TupId, rules: Seq<StoreText>)
    requires
        are_stored(w, dir, rules),
    ensures
        ({
            let (v, r) = w.store_rules(dir, rules);
            let (done, names) = r->Ok_0;
            &&& forall|x: TupId| #[trigger]
                v.tables.nodes.dom().contains(x) && v.tables.nodes[x].dir == dir
                    && v.tables.nodes[x].node_type == NodeType::Generated ==> {
                    let srcid = TupId(v.tables.nodes[x].srcid);
                    &&& (exists|k: int| 0 <= k < done.len() && (#[trigger] done[k]).cmd_id == srcid)
                        ==> is_declared(rules, v.tables.nodes[x].name)
                    &&& !(w.tables.nodes.dom().contains(srcid) && w.tables.nodes[srcid].dir == dir
                        && w.tables.nodes[srcid].node_type == NodeType::Cmd
                        && !v.tables.nodes.dom().contains(srcid))
                }
            &&& forall|x: TupId| #[trigger]
                w.tables.nodes.dom().contains(x) && !v.tables.nodes.dom().contains(x) ==> {
                    &&& w.tables.nodes[x].dir == dir
                    &&& w.tables.nodes[x].node_type == NodeType::Generated ==> names.contains(
                        w.tables.nodes[x].name,
                    )
                    &&& w.tables.nodes[x].node_type == NodeType::Generated
                        || w.tables.nodes[x].node_type == NodeType::Cmd
                        || w.tables.nodes[x].node_type == NodeType::GhostNode
                }
            &&& forall|n: Seq<char>| #[trigger] names.contains(n) ==> v.tables.select(dir, n) is None
        }),
{
    lemma_all_links(w, dir, rules);
    lemma_left(w, dir, rules);
    let (uw, done, e) = w.store_all(dir, rules);
    let u = uw.tables;
    let active = command_ids(done);
    let (vw, r) = w.store_rules(dir, rules);
    let v = vw.tables;
    let names = r->Ok_0.1;
    let gone = u.leftovers(dir, active, rules);
    assert forall|x: TupId| #[trigger]
        v.nodes.dom().contains(x) && v.nodes[x].dir == dir && v.nodes[x].node_type
            == NodeType::Generated implies {
        let srcid = TupId(v.nodes[x].srcid);
        &&& (exists|k: int| 0 <= k < done.len() && (#[trigger] done[k]).cmd_id == srcid)
            ==> is_declared(rules, v.nodes[x].name)
        &&& !(w.tables.nodes.dom().contains(srcid) && w.tables.nodes[srcid].dir == dir
            && w.tables.nodes[srcid].node_type == NodeType::Cmd && !v.nodes.dom().contains(srcid))
    } by {
        let srcid = TupId(v.nodes[x].srcid);
        assert(!goes(u, dir, active, rules, x));
        if w.tables.nodes.dom().contains(srcid) && w.tables.nodes[srcid].dir == dir
            && w.tables.nodes[srcid].node_type == NodeType::Cmd && !v.nodes.dom().contains(srcid) {
            assert(u.nodes.dom().contains(srcid));
            assert(goes(u, dir, active, rules, srcid));
            assert(is_stale(u.nodes[srcid], active));
        }
    }
    assert forall|x: TupId| #[trigger]
        w.tables.nodes.dom().contains(x) && !v.nodes.dom().contains(x) implies {
        &&& w.tables.nodes[x].dir == dir
        &&& w.tables.nodes[x].node_type == NodeType::Generated ==> names.contains(
            w.tables.nodes[x].name,
        )
        &&& w.tables.nodes[x].node_type == NodeType::Generated || w.tables.nodes[x].node_type
            == NodeType::Cmd || w.tables.nodes[x].node_type == NodeType::GhostNode
    } by {
        assert(u.nodes.dom().contains(x));
        assert(goes(u, dir, active, rules, x));
        lemma_goes(u, dir, active, rules, x);
        let i = choose|i: int| 0 <= i < gone.len() && (#[trigger] gone[i]).id == x;
        assert(gone.contains(gone[i]));
        lemma_generated_names(gone, w.tables.nodes[x].name);
    }
    assert forall|n: Seq<char>| #[trigger] names.contains(n) implies v.select(dir, n) is None by {
        lemma_generated_names(gone, n);
        let row = choose|row: RowText| #[trigger]
            gone.contains(row) && row.node_type == NodeType::Generated && row.name == n;
        lemma_goes(u, dir, active, rules, row.id);
        if v.select(dir, n) is Some {
            let id = v.select(dir, n)->0;
            lemma_select(v, dir, n, id);
            assert(v.nodes.dom().contains(id));
            assert(u.nodes.dom().contains(id) && u.nodes.dom().contains(row.id));
            assert(u.nodes[id].name == u.nodes[row.id].name);
            assert(id == row.id);
        }
    }
}

// ------------------------------------------------ what is to be run

/// Whether the command of a rule stands in a directory as the rule has it.
pub open spec fn stands(t: TablesText, dir: TupId, rule: StoreText) -> bool {
    t.select(dir, rule.command) matches Some(id) && has_command(t, dir, id, rule)
}

proof fn lemma_rule_marks(w: World, dir: TupId, rule: StoreText)
    requires
        unique_names(w.tables.nodes),
        w.store_rule(dir, rule).1 is Some,
    ensures
        ({
            let (u, s, e) = w.store_rule(dir, rule);
            let cmd = s->0.cmd_id;
            &&& forall|f: TupFlags, x: TupId| #[trigger]
                (u.tables.flags)(f).contains(x) <==> (w.tables.flags)(f).contains(x) || (f
                    == TupFlags::Modify && x == cmd && !stands(w.tables, dir, rule))
        }),
{
    lemma_choose(w, dir, rule);
    let (m, c) = w.choose_command(dir, rule);
    let cmd = c->Node_0;
    let t0 = if c->Node_1 {
        m.tables.without_rule_links(cmd)
    } else {
        m.tables
    };
    lemma_link_rule_flags(t0, dir, cmd, rule);
    lemma_found(w.tables.nodes, dir, rule.command);
}

proof fn lemma_link_rule_flags(t: TablesText, dir: TupId, cmd: TupId, rule: StoreText)
    requires
        unique_names(t.nodes),
    ensures
        t.link_rule(dir, cmd, rule).0.flags == t.flags,
{
    let a = t.link_inputs(dir, cmd, rule.inputs);
    let b = a.link_order_only(dir, cmd, rule.order_only_inputs);
    lemma_link_inputs_keep(t, dir, cmd, rule.inputs);
    lemma_link_order_only_keep(a, dir, cmd, rule.order_only_inputs);
    lemma_link_outputs_keep(b, dir, cmd, rule.outputs, true);
    let c = b.link_outputs(dir, cmd, rule.outputs, true).0;
    lemma_link_outputs_keep(c, dir, cmd, rule.extra_outputs, false);
}

/// Whether a command was given to one of the first rules and did not stand before.
spec fn is_marked(
    t: TablesText,
    dir: TupId,
    rules: Seq<StoreText>,
    done: Seq<StoredText>,
    x: TupId,
) -> bool {
    exists|k: int|
        0 <= k < done.len() && (#[trigger] done[k]).cmd_id == x && !stands(t, dir, rules[k])
}

proof fn lemma_all_marks(w: World, dir: TupId, rules: Seq<StoreText>)
    requires
        unique_names(w.tables.nodes),
        commands_differ(rules),
        w.store_all(dir, rules).1.len() == rules.len(),
    ensures
        ({
            let (u, done, e) = w.store_all(dir, rules);
            &&& forall|q: StoreText|
                (forall|i: int| 0 <= i < rules.len() ==> q.command != (#[trigger] rules[i]).command)
                    ==> (#[trigger] stands(u.tables, dir, q) <==> stands(w.tables, dir, q))
            &&& forall|f: TupFlags, x: TupId| #[trigger]
                (u.tables.flags)(f).contains(x) <==> (w.tables.flags)(f).contains(x) || (f
                    == TupFlags::Modify && is_marked(w.tables, dir, rules, done, x))
        }),
    decreases rules.len(),
{
    let t = w.tables;
    let (uw, done, f) = w.store_all(dir, rules);
    let u = uw.tables;
    if rules.len() > 0 {
        let before = rules.drop_last();
        let (vw, had, e) = w.store_all(dir, before);
        let v = vw.tables;
        let last = rules.last();
        let m = rules.len() - 1;
        assert(commands_differ(before)) by {
            assert forall|i: int, j: int| 0 <= i < j < before.len() implies (
            #[trigger] before[i]).command != (#[trigger] before[j]).command by {
                assert(before[i] == rules[i] && before[j] == rules[j]);
            }
        }
        lemma_agree(before);
        lemma_store_all(w, dir, before);
        lemma_unique_after_all(w, dir, before);
        lemma_all_marks(w, dir, before);
        let s = vw.store_rule(dir, last).1;
        assert(done == had.push(s->0));
        let cmd = s->0.cmd_id;
        lemma_rule_marks(vw, dir, last);
        assert(stands(v, dir, last) <==> stands(t, dir, last)) by {
            assert forall|i: int| 0 <= i < before.len() implies last.command != (
            #[trigger] before[i]).command by {
                assert(before[i] == rules[i]);
                assert(rules[i].command != rules[m].command);
            }
        }
        assert forall|q: StoreText|
            (forall|i: int| 0 <= i < rules.len() ==> q.command != (#[trigger] rules[i]).command)
            implies (#[trigger] stands(u, dir, q) <==> stands(t, dir, q)) by {
            assert forall|i: int| 0 <= i < before.len() implies q.command != (
            #[trigger] before[i]).command by {
                assert(before[i] == rules[i]);
            }
            assert(q.command != rules[m].command);
            lemma_others_stand(vw, dir, last, q);
        }
        assert forall|x: TupId| #[trigger] is_marked(t, dir, rules, done, x) <==> is_marked(
            t,
            dir,
            before,
            had,
            x,
        ) || (x == cmd && !stands(t, dir, last)) by {
            if is_marked(t, dir, before, had, x) {
                let k = choose|k: int|
                    0 <= k < had.len() && (#[trigger] had[k]).cmd_id == x && !stands(
                        t,
                        dir,
                        before[k],
                    );
                assert(done[k] == had[k] && rules[k] == before[k]);
            }
            if x == cmd && !stands(t, dir, last) {
                assert(done[m].cmd_id == x);
            }
            if is_marked(t, dir, rules, done, x) {
                let k = choose|k: int|
                    0 <= k < done.len() && (#[trigger] done[k]).cmd_id == x && !stands(
                        t,
                        dir,
                        rules[k],
                    );
                if k < m {
                    assert(done[k] == had[k] && rules[k] == before[k]);
                }
            }
        }
        assert forall|g: TupFlags, x: TupId| #[trigger] (u.flags)(g).contains(x) <==> (t.flags)(
            g,
        ).contains(x) || (g == TupFlags::Modify && is_marked(t, dir, rules, done, x)) by {
            assert((v.flags)(g).contains(x) <==> (t.flags)(g).contains(x) || (g
                == TupFlags::Modify && is_marked(t, dir, before, had, x)));
        }
    } else {
        assert(done.len() == 0);
    }
}

/// Storing a rule leaves the commands of other names as they are.
proof fn lemma_others_stand(w: World, dir: TupId, rule: StoreText, q: StoreText)
    requires
        unique_names(w.tables.nodes),
        w.store_rule(dir, rule).1 is Some,
        q.command != rule.command,
    ensures
        stands(w.store_rule(dir, rule).0.tables, dir, q) <==> stands(w.tables, dir, q),
{
    let u = w.store_rule(dir, rule).0.tables;
    lemma_store_rule(w, dir, rule);
    lemma_rule(w, dir, rule);
    let cmd = w.store_rule(dir, rule).1->0.cmd_id;
    let mid = w.choose_command(dir, rule).0.tables;
    lemma_grows_trans(w.tables, mid, u);
    lemma_found(w.tables.nodes, dir, q.command);
    lemma_found(u.nodes, dir, q.command);
    if stands(w.tables, dir, q) {
        let id = w.tables.select(dir, q.command)->0;
        assert(has_command(u, dir, id, q));
        lemma_select(u, dir, q.command, id);
    }
    if stands(u, dir, q) {
        let id = u.select(dir, q.command)->0;
        assert(u.nodes.dom().contains(id));
        assert(has_command(u, dir, cmd, rule));
        assert(id != cmd);
        assert(w.tables.nodes.dom().contains(id));
        let p = StoreText {
            command: q.command,
            display: w.tables.nodes[id].display,
            flags: w.tables.nodes[id].flags,
            ..q
        };
        assert(has_command(w.tables, dir, id, p));
        assert(has_command(u, dir, id, p));
        lemma_select(w.tables, dir, q.command, id);
    }
}

/// Storing the rules of a directory marks the commands that are to be run: those that are
/// new, and those that are shown otherwise or have other flags than before. Nothing else
/// becomes pending, and nothing that is pending is forgotten.
pub proof fn new_commands_are_to_be_run(w: World, dir: TupId, rules: Seq<StoreText>)
    requires
        are_stored(w, dir, rules),
    ensures
        ({
            let (v, r) = w.store_rules(dir, rules);
            let done = r->Ok_0.0;
            forall|f: TupFlags, x: TupId| #[trigger]
                (v.tables.flags)(f).contains(x) <==> (w.tables.flags)(f).contains(x) || (f
                    == TupFlags::Modify && exists|k: int|
                    0 <= k < done.len() && (#[trigger] done[k]).cmd_id == x && !stands(
                        w.tables,
                        dir,
                        rules[k],
                    ))
        }),
{
    lemma_all_marks(w, dir, rules);
    let (u, done, e) = w.store_all(dir, rules);
    let gone = u.tables.leftovers(dir, command_ids(done), rules);
    lemma_drop_rows(u.tables, gone);
    let v = w.store_rules(dir, rules).0;
    assert forall|f: TupFlags, x: TupId| #[trigger] (v.tables.flags)(f).contains(x) <==> (
    w.tables.flags)(f).contains(x) || (f == TupFlags::Modify && exists|k: int|
        0 <= k < done.len() && (#[trigger] done[k]).cmd_id == x && !stands(
            w.tables,
            dir,
            rules[k],
        )) by {
        assert((u.tables.flags)(f).contains(x) <==> (w.tables.flags)(f).contains(x) || (f
            == TupFlags::Modify && is_marked(w.tables, dir, rules, done, x)));
    }
}

} // verus!
