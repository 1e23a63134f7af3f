//! What holds of an update: the configuration, the commands that run and what is left of
//! them.
use vstd::prelude::*;

use crate::build::config::{config_line, config_vars};
use crate::build::dirs::{dir_path_of, NoPath};
use crate::build::update::{
    all_outputs, dirs_of_rows, file_names, has_commands, has_path, ignored, jobs_of_lines,
    output_names, paths_in, run_of, runs_of, to_store, without_neighbours, Finished,
};
use crate::db::commands::{command_ids, StoreText};
use crate::db::link_laws::what_no_rule_makes_goes;
use crate::db::links::input_ids;
use crate::db::node_laws::outputs_are_tracked;
use crate::db::nodes::World;
use crate::db::rows::{unique_names, RowText};
use crate::db::store_laws::{every_command_has_a_rule, lemma_drop_rows, lemma_rows_in};
use crate::db::tables::{dot, ins, TablesText, TupFlags};
use crate::ids::{ascending, ascending_lists, ids_without, increasing};
use crate::numbers::int_between;
use crate::ordmap::{lemma_text_lt_total, lemma_text_lt_transitive, text_lt};
use crate::parser::rule::RuleText;
use crate::parser::vardb::VarTables;
use crate::paths::path_join;
use crate::sorting::{is_sorted, sort, sort_is_sorted};
use crate::text::{find_char, find_char_is_first, strip_prefix, trim};
use crate::types::{NodeType, TupId};

verus! {

// ------------------------------------------------ the configuration

/// A line `CONFIG_name=value` sets a variable, up to the first `=`; a line that says that a
/// variable is not set gives it the value `n`; other comments and lines say nothing.
pub proof fn configuration_lines_are_read(name: Seq<char>, value: Seq<char>, line: Seq<char>)
    requires
        !name.contains('='),
        trim("CONFIG_"@ + name + seq!['='] + value) == "CONFIG_"@ + name + seq!['='] + value,
        trim("# CONFIG_"@ + name + " is not set"@) == "# CONFIG_"@ + name + " is not set"@,
    ensures
        config_line("CONFIG_"@ + name + seq!['='] + value) == Some((name, value)),
        config_line("# CONFIG_"@ + name + " is not set"@) == Some((name, seq!['n'])),
        !"CONFIG_"@.is_prefix_of(trim(line)) && !"# CONFIG_"@.is_prefix_of(trim(line))
            ==> config_line(line) is None,
{
    reveal_strlit("CONFIG_");
    reveal_strlit("# CONFIG_");
    reveal_strlit(" is not set");
    reveal_strlit("n");
    let head = "CONFIG_"@;
    let s = head + name + seq!['='] + value;
    assert(s.subrange(0, head.len() as int) =~= head);
    let k = 7 + name.len() as int;
    assert(s[k] == '=');
    assert(s.contains(s[k]));
    find_char_is_first(s, '=');
    match find_char(s, '=') {
        Some(j) => {
            if 7 <= j < k {
                assert(s[j] == name[j - 7]);
                assert(name.contains(name[j - 7]));
            } else if j < 7 {
                assert(s[j] == head[j]);
            } else if j > k {
                assert(s[k] != '=');
            }
        },
        None => {},
    }
    assert(s.subrange(7, k) =~= name);
    assert(s.skip(k + 1) =~= value);
    let mark = "# CONFIG_"@;
    let end = " is not set"@;
    let c = mark + name + end;
    assert(c[0] == '#');
    assert(!head.is_prefix_of(c)) by {
        if head.is_prefix_of(c) {
            assert(c.subrange(0, head.len() as int)[0] == 'C');
        }
    }
    assert(c.subrange(0, mark.len() as int) =~= mark);
    assert(c.subrange(c.len() - end.len(), c.len() as int) =~= end);
    let rest = c.skip(9);
    assert(rest =~= name + end);
    assert(rest.subrange(rest.len() - end.len(), rest.len() as int) =~= end);
    assert(rest.take(rest.len() - 11) =~= name);
    assert("n"@ =~= seq!['n']);
}

/// The last line about a variable counts; a line about another one leaves it as it is.
pub proof fn the_last_line_counts(ls: Seq<Seq<char>>, line: Seq<char>, other: Seq<char>)
    ensures
        ({
            let before = config_vars(ls);
            let after = config_vars(ls.push(line));
            match config_line(line) {
                Some((name, value)) => {
                    &&& after.dom().contains(name) && after[name] == value
                    &&& other != name ==> {
                        &&& after.dom().contains(other) == before.dom().contains(other)
                        &&& after[other] == before[other]
                    }
                },
                None => after == before,
            }
        }),
        config_vars(Seq::empty()) == Map::<Seq<char>, Seq<char>>::empty(),
{
    assert(ls.push(line).drop_last() =~= ls);
}

/// The variables of the configuration can be read in a Tupfile in two ways: `@(name)` and
/// `$(CONFIG_name)` give the same value. Of two values of a name the later one counts, and
/// what is not of the configuration stays.
pub proof fn the_configuration_can_be_read(
    t: VarTables,
    pairs: Seq<(Seq<char>, Seq<char>)>,
    name: Seq<char>,
    value: Seq<char>,
    other: Seq<char>,
)
    ensures
        ({
            let before = t.with_config(pairs);
            let after = t.with_config(pairs.push((name, value)));
            &&& after.config.dom().contains(name) && after.config[name] == value
            &&& after.vars.dom().contains("CONFIG_"@ + name) && after.vars["CONFIG_"@ + name]
                == value
            &&& other != name ==> {
                &&& after.config.dom().contains(other) == before.config.dom().contains(other)
                &&& after.config[other] == before.config[other]
            }
            &&& other != "CONFIG_"@ + name ==> {
                &&& after.vars.dom().contains(other) == before.vars.dom().contains(other)
                &&& after.vars[other] == before.vars[other]
            }
        }),
        t.with_config(Seq::empty()) == t,
    decreases pairs.len(),
{
    let all = pairs.push((name, value));
    if pairs.len() == 0 {
        assert(all.drop_first() =~= Seq::empty());
        assert(all[0] == (name, value));
        let u = t.set_config(name, value).set("CONFIG_"@ + name, value);
        assert(u.with_config(Seq::empty()) == u);
        assert(all.drop_first().len() == 0);
    } else {
        let (n, v) = pairs[0];
        let u = t.set_config(n, v).set("CONFIG_"@ + n, v);
        the_configuration_can_be_read(u, pairs.drop_first(), name, value, other);
        assert(all[0] == pairs[0]);
        assert(all.drop_first() =~= pairs.drop_first().push((name, value)));
    }
}

// ------------------------------------------------ rules

/// A rule is stored with everything that it says.
pub proof fn a_rule_is_stored_whole(r: RuleText)
    ensures
        to_store(r).command == r.command.command,
        to_store(r).display == r.command.display,
        to_store(r).flags == r.command.flags,
        to_store(r).inputs == r.inputs,
        to_store(r).order_only_inputs == r.order_only_inputs,
        to_store(r).outputs == r.outputs,
        to_store(r).extra_outputs == r.extra_outputs,
{
}

proof fn lemma_concat(a: Seq<Seq<char>>, b: Seq<Seq<char>>, x: Seq<char>)
    ensures
        (a + b).contains(x) <==> a.contains(x) || b.contains(x),
{
    let all = a + b;
    if a.contains(x) {
        let i = choose|i: int| 0 <= i < a.len() && a[i] == x;
        assert(all[i] == x);
    }
    if b.contains(x) {
        let i = choose|i: int| 0 <= i < b.len() && b[i] == x;
        assert(all[a.len() + i] == x);
    }
    if all.contains(x) {
        let i = choose|i: int| 0 <= i < all.len() && all[i] == x;
        if i < a.len() {
            assert(a[i] == x);
        } else {
            assert(b[i - a.len()] == x);
        }
    }
}

/// The outputs of rules are the outputs of each of them and nothing else.
pub proof fn outputs_are_collected(rules: Seq<RuleText>, o: Seq<char>)
    ensures
        all_outputs(rules).contains(o) <==> exists|i: int|
            0 <= i < rules.len() && (#[trigger] rules[i]).outputs.contains(o),
    decreases rules.len(),
{
    if rules.len() > 0 {
        let before = rules.drop_last();
        let n = rules.len() - 1;
        outputs_are_collected(before, o);
        lemma_concat(all_outputs(before), rules.last().outputs, o);
        assert(rules[n] == rules.last());
        if exists|i: int| 0 <= i < before.len() && (#[trigger] before[i]).outputs.contains(o) {
            let i = choose|i: int|
                0 <= i < before.len() && (#[trigger] before[i]).outputs.contains(o);
            assert(rules[i] == before[i]);
        }
        if exists|i: int| 0 <= i < rules.len() && (#[trigger] rules[i]).outputs.contains(o) {
            let i = choose|i: int|
                0 <= i < rules.len() && (#[trigger] rules[i]).outputs.contains(o);
            if i < n {
                assert(before[i] == rules[i]);
            }
        }
    }
}

// ------------------------------------------------ the commands that run

proof fn lemma_output_names(rows: Seq<RowText>, cmd: TupId, n: Seq<char>)
    ensures
        output_names(rows, cmd).contains(n) <==> exists|i: int|
            0 <= i < rows.len() && (#[trigger] rows[i]).name == n && rows[i].node_type
                == NodeType::Generated && rows[i].srcid == cmd.0,
    decreases rows.len(),
{
    if rows.len() > 0 {
        let before = rows.drop_last();
        let m = rows.len() - 1;
        let last = rows.last();
        lemma_output_names(before, cmd, n);
        assert(rows[m] == last);
        let had = output_names(before, cmd);
        lemma_concat(had, seq![last.name], n);
        assert(had.push(last.name) =~= had + seq![last.name]);
        assert(seq![last.name].contains(n) <==> n == last.name) by {
            assert(seq![last.name][0] == last.name);
        }
        if had.contains(n) {
            let i = choose|i: int|
                0 <= i < before.len() && (#[trigger] before[i]).name == n && before[i].node_type
                    == NodeType::Generated && before[i].srcid == cmd.0;
            assert(rows[i] == before[i]);
        }
        if exists|i: int|
            0 <= i < rows.len() && (#[trigger] rows[i]).name == n && rows[i].node_type
                == NodeType::Generated && rows[i].srcid == cmd.0 {
            let i = choose|i: int|
                0 <= i < rows.len() && (#[trigger] rows[i]).name == n && rows[i].node_type
                    == NodeType::Generated && rows[i].srcid == cmd.0;
            if i < m {
                assert(before[i] == rows[i]);
            }
        }
    }
}

proof fn lemma_file_names(nodes: Map<TupId, RowText>, ids: Seq<TupId>, n: Seq<char>)
    ensures
        file_names(nodes, ids).contains(n) <==> exists|i: int|
            0 <= i < ids.len() && nodes.dom().contains(#[trigger] ids[i]) && nodes[ids[i]].name
                == n && (nodes[ids[i]].node_type == NodeType::Generated
                || nodes[ids[i]].node_type == NodeType::File),
    decreases ids.len(),
{
    if ids.len() > 0 {
        let before = ids.drop_last();
        let m = ids.len() - 1;
        let last = ids.last();
        lemma_file_names(nodes, before, n);
        assert(ids[m] == last);
        let had = file_names(nodes, before);
        let name = nodes[last].name;
        lemma_concat(had, seq![name], n);
        assert(had.push(name) =~= had + seq![name]);
        assert(seq![name].contains(n) <==> n == name) by {
            assert(seq![name][0] == name);
        }
        if had.contains(n) {
            let i = choose|i: int|
                0 <= i < before.len() && nodes.dom().contains(#[trigger] before[i])
                    && nodes[before[i]].name == n && (nodes[before[i]].node_type
                    == NodeType::Generated || nodes[before[i]].node_type == NodeType::File);
            assert(ids[i] == before[i]);
        }
        if exists|i: int|
            0 <= i < ids.len() && nodes.dom().contains(#[trigger] ids[i]) && nodes[ids[i]].name
                == n && (nodes[ids[i]].node_type == NodeType::Generated
                || nodes[ids[i]].node_type == NodeType::File) {
            let i = choose|i: int|
                0 <= i < ids.len() && nodes.dom().contains(#[trigger] ids[i])
                    && nodes[ids[i]].name == n && (nodes[ids[i]].node_type
                    == NodeType::Generated || nodes[ids[i]].node_type == NodeType::File);
            if i < m {
                assert(before[i] == ids[i]);
            }
        }
    }
}

proof fn lemma_ids_without(s: Seq<TupId>, a: Set<TupId>, x: TupId)
    ensures
        ids_without(s, a).contains(x) <==> s.contains(x) && !a.contains(x),
    decreases s.len(),
{
    if s.len() > 0 {
        let before = s.drop_last();
        lemma_ids_without(before, a, x);
        lemma_ids_push(s, x);
        let now = ids_without(s, a);
        if !a.contains(s.last()) {
            lemma_ids_push(now, x);
            assert(now.drop_last() =~= ids_without(before, a));
        }
    }
}

proof fn lemma_ids_push(s: Seq<TupId>, x: TupId)
    requires
        s.len() > 0,
    ensures
        s.contains(x) <==> s.drop_last().contains(x) || x == s.last(),
{
    let before = s.drop_last();
    if before.contains(x) {
        let i = choose|i: int| 0 <= i < before.len() && before[i] == x;
        assert(s[i] == x);
    }
    if x == s.last() {
        assert(s[s.len() - 1] == x);
    }
    if s.contains(x) {
        let i = choose|i: int| 0 <= i < s.len() && s[i] == x;
        if i < before.len() {
            assert(before[i] == x);
        }
    }
}

proof fn lemma_input_ids(t: TablesText, cmd: TupId, x: TupId)
    ensures
        input_ids(t, cmd).contains(x) <==> t.sticky.contains((x, cmd)) || t.normal.contains(
            (x, cmd),
        ),
{
    let a = ascending(ins(t.sticky, cmd));
    let n = ascending(ins(t.normal, cmd));
    let b = ids_without(n, ins(t.sticky, cmd));
    ascending_lists(ins(t.sticky, cmd));
    ascending_lists(ins(t.normal, cmd));
    lemma_ids_without(n, ins(t.sticky, cmd), x);
    assert(a.contains(x) <==> ins(t.sticky, cmd).contains(x));
    assert(n.contains(x) <==> ins(t.normal, cmd).contains(x));
    let all = a + b;
    if a.contains(x) {
        let i = choose|i: int| 0 <= i < a.len() && a[i] == x;
        assert(all[i] == x);
    }
    if b.contains(x) {
        let i = choose|i: int| 0 <= i < b.len() && b[i] == x;
        assert(all[a.len() + i] == x);
    }
    if all.contains(x) {
        let i = choose|i: int| 0 <= i < all.len() && all[i] == x;
        if i < a.len() {
            assert(a[i] == x);
        } else {
            assert(b[i - a.len()] == x);
        }
    }
}

/// A command runs as its node says, in the directory of that node. Its inputs are the files
/// from which a link leads to it, and its outputs the generated files of its directory
/// that come from it: all of them and nothing else.
pub proof fn a_command_runs_as_it_was_stored(t: TablesText, cmd: TupId, n: Seq<char>)
    requires
        unique_names(t.nodes),
        t.nodes.dom().contains(cmd),
    ensures
        ({
            let r = run_of(t, cmd);
            let row = t.nodes[cmd];
            &&& r.cmd_id == cmd
            &&& r.dir_id == row.dir
            &&& r.command == row.name
            &&& r.display == row.display
            &&& r.inputs.contains(n) <==> exists|x: TupId| #[trigger]
                t.nodes.dom().contains(x) && t.nodes[x].name == n && (t.nodes[x].node_type
                    == NodeType::File || t.nodes[x].node_type == NodeType::Generated) && (
                t.sticky.contains((x, cmd)) || t.normal.contains((x, cmd)))
            &&& r.outputs.contains(n) <==> exists|x: TupId| #[trigger]
                t.nodes.dom().contains(x) && t.nodes[x].name == n && t.nodes[x].dir == row.dir
                    && t.nodes[x].node_type == NodeType::Generated && t.nodes[x].srcid == cmd.0
        }),
{
    let row = t.nodes[cmd];
    let ids = input_ids(t, cmd);
    let rows = t.rows_in(row.dir);
    lemma_file_names(t.nodes, ids, n);
    lemma_output_names(rows, cmd, n);
    lemma_rows_in(t, row.dir);
    let r = run_of(t, cmd);
    if r.inputs.contains(n) {
        let i = choose|i: int|
            0 <= i < ids.len() && t.nodes.dom().contains(#[trigger] ids[i])
                && t.nodes[ids[i]].name == n && (t.nodes[ids[i]].node_type == NodeType::Generated
                || t.nodes[ids[i]].node_type == NodeType::File);
        assert(ids.contains(ids[i]));
        lemma_input_ids(t, cmd, ids[i]);
    }
    if exists|x: TupId| #[trigger]
        t.nodes.dom().contains(x) && t.nodes[x].name == n && (t.nodes[x].node_type
            == NodeType::File || t.nodes[x].node_type == NodeType::Generated) && (t.sticky.contains(
            (x, cmd),
        ) || t.normal.contains((x, cmd))) {
        let x = choose|x: TupId| #[trigger]
            t.nodes.dom().contains(x) && t.nodes[x].name == n && (t.nodes[x].node_type
                == NodeType::File || t.nodes[x].node_type == NodeType::Generated) && (
            t.sticky.contains((x, cmd)) || t.normal.contains((x, cmd)));
        lemma_input_ids(t, cmd, x);
        let i = choose|i: int| 0 <= i < ids.len() && ids[i] == x;
        assert(t.nodes.dom().contains(ids[i]));
    }
    if r.outputs.contains(n) {
        let i = choose|i: int|
            0 <= i < rows.len() && (#[trigger] rows[i]).name == n && rows[i].node_type
                == NodeType::Generated && rows[i].srcid == cmd.0;
        assert(rows.contains(rows[i]));
        assert(t.nodes.dom().contains(rows[i].id));
    }
    if exists|x: TupId| #[trigger]
        t.nodes.dom().contains(x) && t.nodes[x].name == n && t.nodes[x].dir == row.dir
            && t.nodes[x].node_type == NodeType::Generated && t.nodes[x].srcid == cmd.0 {
        let x = choose|x: TupId| #[trigger]
            t.nodes.dom().contains(x) && t.nodes[x].name == n && t.nodes[x].dir == row.dir
                && t.nodes[x].node_type == NodeType::Generated && t.nodes[x].srcid == cmd.0;
        assert(t.nodes[x].id == x);
        assert(rows.contains(t.nodes[x]));
        let i = choose|i: int| 0 <= i < rows.len() && rows[i] == t.nodes[x];
        assert(rows[i].name == n);
    }
}

/// The commands that are marked as modified run, each once, and no others.
pub proof fn marked_commands_run(t: TablesText, cmd: TupId)
    ensures
        ({
            let runs = runs_of(t);
            &&& (exists|i: int| 0 <= i < runs.len() && (#[trigger] runs[i]).cmd_id == cmd) <==> {
                &&& (t.flags)(TupFlags::Modify).contains(cmd)
                &&& t.nodes.dom().contains(cmd)
                &&& t.nodes[cmd].node_type == NodeType::Cmd
            }
            &&& forall|i: int, j: int|
                0 <= i < j < runs.len() ==> (#[trigger] runs[i]).cmd_id.0 < (
                #[trigger] runs[j]).cmd_id.0
        }),
{
    let s = t.known_of((t.flags)(TupFlags::Modify), NodeType::Cmd);
    let cmds = ascending(s);
    let runs = runs_of(t);
    ascending_lists(s);
    assert(cmds.contains(cmd) <==> s.contains(cmd));
    if cmds.contains(cmd) {
        let i = choose|i: int| 0 <= i < cmds.len() && cmds[i] == cmd;
        assert(runs[i].cmd_id == cmd);
    }
    if exists|i: int| 0 <= i < runs.len() && (#[trigger] runs[i]).cmd_id == cmd {
        let i = choose|i: int| 0 <= i < runs.len() && (#[trigger] runs[i]).cmd_id == cmd;
        assert(cmds[i] == cmd);
        assert(cmds.contains(cmds[i]));
    }
    assert forall|i: int, j: int| 0 <= i < j < runs.len() implies (#[trigger] runs[i]).cmd_id.0 < (
    #[trigger] runs[j]).cmd_id.0 by {
        assert(runs[i].cmd_id == cmds[i] && runs[j].cmd_id == cmds[j]);
        assert(increasing(cmds));
    }
}

/// A command that ran is not marked any more; every other mark stays. Its outputs that are
/// there are known with their times, and those that are not are named.
pub proof fn a_command_that_ran_is_done(
    t: TablesText,
    cmd: Finished,
    now: (i64, i64),
    f: TupFlags,
    x: TupId,
)
    requires
        unique_names(t.nodes),
        forall|i: int, j: int|
            0 <= i < j < cmd.outputs@.len() ==> (#[trigger] cmd.outputs@[i]).name@ != (
            #[trigger] cmd.outputs@[j]).name@,
        t.finish_one(cmd, now).2 is None,
    ensures
        ({
            let (u, missing, e) = t.finish_one(cmd, now);
            &&& (u.flags)(f).contains(x) <==> (t.flags)(f).contains(x) && !(f == TupFlags::Modify
                && x == cmd.cmd_id)
            &&& forall|i: int|
                0 <= i < cmd.outputs@.len() && (#[trigger] cmd.outputs@[i]).mtime is None
                    ==> missing.contains(cmd.outputs@[i].name@)
            &&& forall|n: Seq<char>| #[trigger]
                missing.contains(n) ==> exists|i: int|
                    0 <= i < cmd.outputs@.len() && (#[trigger] cmd.outputs@[i]).name@ == n
                        && cmd.outputs@[i].mtime is None
        }),
{
    if cmd.outputs@.len() > 0 {
        outputs_are_tracked(t, cmd.cmd_id, cmd.dir_id, cmd.outputs@);
    }
}

// ------------------------------------------------ settings and ignored files

/// The number of jobs is that of the first line `num_jobs=n` with a number above 0; lines
/// that are no such lines say nothing.
pub proof fn the_first_number_of_jobs_counts(line: Seq<char>, rest: Seq<Seq<char>>)
    ensures
        match strip_prefix(trim(line), "num_jobs="@) {
            Some(v) => match int_between(trim(v), 0, usize::MAX as int) {
                Ok(n) => jobs_of_lines(seq![line] + rest) == (if n > 0 {
                    Some(n)
                } else {
                    jobs_of_lines(rest)
                }),
                Err(_) => jobs_of_lines(seq![line] + rest) == jobs_of_lines(rest),
            },
            None => jobs_of_lines(seq![line] + rest) == jobs_of_lines(rest),
        },
        jobs_of_lines(Seq::empty()) is None,
{
    let all = seq![line] + rest;
    assert(all[0] == line);
    assert(all.drop_first() =~= rest);
}

proof fn lemma_without_neighbours(s: Seq<Seq<char>>, x: Seq<char>)
    requires
        is_sorted(s),
    ensures
        without_neighbours(s).contains(x) <==> s.contains(x),
        is_strict(without_neighbours(s)),
        s.len() > 0 ==> without_neighbours(s).len() > 0 && without_neighbours(s).last() == s.last(),
    decreases s.len(),
{
    if s.len() > 0 {
        let before = s.drop_last();
        assert(is_sorted(before)) by {
            assert forall|i: int, j: int| 0 <= i < j < before.len() implies !text_lt(
                #[trigger] before[j],
                #[trigger] before[i],
            ) by {
                assert(before[i] == s[i] && before[j] == s[j]);
            }
        }
        lemma_without_neighbours(before, x);
        let had = without_neighbours(before);
        let now = without_neighbours(s);
        lemma_concat(before, seq![s.last()], x);
        assert(s =~= before + seq![s.last()]);
        assert(seq![s.last()].contains(x) <==> x == s.last()) by {
            assert(seq![s.last()][0] == s.last());
        }
        if s.len() > 1 && s[s.len() - 2] == s.last() {
            assert(before.last() == s.last());
            assert(before.contains(before.last())) by {
                assert(before[before.len() - 1] == before.last());
            }
        } else {
            lemma_concat(had, seq![s.last()], x);
            assert(had.push(s.last()) =~= had + seq![s.last()]);
            if s.len() > 1 {
                assert(before.last() == s[s.len() - 2]);
                assert(!text_lt(s[s.len() - 1], s[s.len() - 2]));
                lemma_text_lt_total(before.last(), s.last());
                assert(text_lt(before.last(), s.last()));
            }
            assert forall|i: int, j: int| 0 <= i < j < now.len() implies text_lt(
                #[trigger] now[i],
                #[trigger] now[j],
            ) by {
                if j < had.len() {
                    assert(now[i] == had[i] && now[j] == had[j]);
                } else {
                    assert(now[i] == had[i]);
                    assert(now[j] == s.last());
                    if i < had.len() - 1 {
                        assert(text_lt(had[i], had[had.len() - 1]));
                        lemma_text_lt_transitive(had[i], had.last(), s.last());
                    }
                }
            }
        }
    }
}

/// A sequence of texts in which each is followed by greater ones only.
pub open spec fn is_strict(s: Seq<Seq<char>>) -> bool {
    forall|i: int, j: int| 0 <= i < j < s.len() ==> text_lt(#[trigger] s[i], #[trigger] s[j])
}

/// An ignore file names the outputs of its directory and itself, in order and each once; at
/// the top of the project also the directory of the database, and, where there is a
/// repository, the ignore file there. It names nothing else.
pub proof fn ignored_files_are_named_once(
    outputs: Seq<Seq<char>>,
    is_root: bool,
    has_git: bool,
    x: Seq<char>,
)
    ensures
        is_strict(ignored(outputs, is_root, has_git)),
        ignored(outputs, is_root, has_git).contains(x) <==> {
            ||| outputs.contains(x)
            ||| x == ".gitignore"@
            ||| is_root && x == ".tup"@
            ||| is_root && has_git && x == "/.gitignore"@
        },
{
    let own = outputs.push(".gitignore"@);
    let top = own.push(".tup"@);
    let git = top.push("/.gitignore"@);
    let all = if is_root && has_git {
        git
    } else if is_root {
        top
    } else {
        own
    };
    lemma_push(outputs, ".gitignore"@, x);
    lemma_push(own, ".tup"@, x);
    lemma_push(top, "/.gitignore"@, x);
    sort_is_sorted(all);
    lemma_without_neighbours(sort(all), x);
    all.to_multiset_ensures();
    sort(all).to_multiset_ensures();
    assert(all.contains(x) <==> all.to_multiset().count(x) > 0);
    assert(sort(all).contains(x) <==> sort(all).to_multiset().count(x) > 0);
}

proof fn lemma_push(s: Seq<Seq<char>>, y: Seq<char>, x: Seq<char>)
    ensures
        s.push(y).contains(x) <==> s.contains(x) || x == y,
{
    lemma_concat(s, seq![y], x);
    assert(s.push(y) =~= s + seq![y]);
    assert(seq![y][0] == y);
}

// ------------------------------------------------ directories that are not parsed any more

/// The directories of some rows, with their paths: the top of the project, and every
/// directory whose path is known.
pub proof fn directories_have_paths(
    t: TablesText,
    rows: Seq<RowText>,
    root: Seq<char>,
    id: TupId,
    path: Seq<char>,
)
    ensures
        dirs_of_rows(t, rows, root).contains((id, path)) <==> {
            ||| id == dot() && path == root
            ||| exists|i: int|
                0 <= i < rows.len() && (#[trigger] rows[i]).id == id && rows[i].node_type
                    == NodeType::Dir && dir_path_of(t, id, root) == Ok::<
                    Seq<char>,
                    NoPath,
                >(path)
        },
    decreases rows.len(),
{
    let now = dirs_of_rows(t, rows, root);
    let p = (id, path);
    if rows.len() == 0 {
        assert(now[0] == (dot(), root));
    } else {
        let before = rows.drop_last();
        let m = rows.len() - 1;
        let had = dirs_of_rows(t, before, root);
        directories_have_paths(t, before, root, id, path);
        assert(rows[m] == rows.last());
        if had.contains(p) {
            let k = choose|k: int| 0 <= k < had.len() && had[k] == p;
            assert(now[k] == p);
        }
        if now.contains(p) {
            let k = choose|k: int| 0 <= k < now.len() && now[k] == p;
            if k < had.len() {
                assert(had[k] == p);
            } else {
                assert(rows[m].id == id);
            }
        }
        if exists|i: int|
            0 <= i < before.len() && (#[trigger] before[i]).id == id && before[i].node_type
                == NodeType::Dir && dir_path_of(t, id, root) == Ok::<
                Seq<char>,
                NoPath,
            >(path) {
            let i = choose|i: int|
                0 <= i < before.len() && (#[trigger] before[i]).id == id && before[i].node_type
                    == NodeType::Dir && dir_path_of(t, id, root) == Ok::<
                    Seq<char>,
                    NoPath,
                >(path);
            assert(rows[i] == before[i]);
        }
        if exists|i: int|
            0 <= i < rows.len() && (#[trigger] rows[i]).id == id && rows[i].node_type
                == NodeType::Dir && dir_path_of(t, id, root) == Ok::<
                Seq<char>,
                NoPath,
            >(path) {
            let i = choose|i: int|
                0 <= i < rows.len() && (#[trigger] rows[i]).id == id && rows[i].node_type
                    == NodeType::Dir && dir_path_of(t, id, root) == Ok::<
                    Seq<char>,
                    NoPath,
                >(path);
            if i < m {
                assert(before[i] == rows[i]);
            } else {
                assert(now[had.len() as int] == p);
            }
        }
    }
}

proof fn lemma_emptied(w: World, dir: TupId)
    requires
        unique_names(w.tables.nodes),
        w.store_rules(dir, Seq::empty()).1 is Ok,
    ensures
        ({
            let v = w.store_rules(dir, Seq::empty()).0.tables;
            &&& unique_names(v.nodes)
            &&& !has_commands(v, dir)
            &&& forall|x: TupId| #[trigger]
                v.nodes.dom().contains(x) ==> w.tables.nodes.dom().contains(x) && v.nodes[x]
                    == w.tables.nodes[x]
        }),
{
    let none = Seq::<StoreText>::empty();
    let (u, done, e) = w.store_all(dir, none);
    let gone = u.tables.leftovers(dir, command_ids(done), none);
    lemma_drop_rows(u.tables, gone);
    let v = w.store_rules(dir, none).0.tables;
    if has_commands(v, dir) {
        let id = choose|id: TupId| #[trigger]
            v.nodes.dom().contains(id) && v.nodes[id].dir == dir && v.nodes[id].node_type
                == NodeType::Cmd;
        every_command_has_a_rule(w, dir, none, id);
    }
}

/// A directory whose rules were not parsed again has no commands any more; the nodes that
/// are left are as they were.
pub proof fn directories_without_rules_have_no_commands(
    w: World,
    dirs: Seq<(TupId, Seq<char>)>,
    parsed: Seq<Seq<char>>,
    gone: Seq<Seq<char>>,
)
    requires
        unique_names(w.tables.nodes),
        w.clean(dirs, parsed, gone).1 is Ok,
    ensures
        ({
            let v = w.clean(dirs, parsed, gone).0.tables;
            &&& forall|i: int|
                0 <= i < dirs.len() && !has_path(parsed, (#[trigger] dirs[i]).1) ==> !has_commands(
                    v,
                    dirs[i].0,
                )
            &&& forall|x: TupId| #[trigger]
                v.nodes.dom().contains(x) ==> w.tables.nodes.dom().contains(x) && v.nodes[x]
                    == w.tables.nodes[x]
            &&& gone.is_prefix_of(w.clean(dirs, parsed, gone).1->Ok_0)
        }),
    decreases dirs.len(),
{
    let (vw, r) = w.clean(dirs, parsed, gone);
    let v = vw.tables;
    if dirs.len() == 0 {
        assert(gone.subrange(0, gone.len() as int) =~= gone);
    } else {
        let (dir, path) = dirs[0];
        let rest = dirs.drop_first();
        if has_path(parsed, path) || !has_commands(w.tables, dir) {
            directories_without_rules_have_no_commands(w, rest, parsed, gone);
        } else {
            let (u, done) = w.store_rules(dir, Seq::empty());
            lemma_emptied(w, dir);
            let more = gone + paths_in(path, done->Ok_0.1);
            directories_without_rules_have_no_commands(u, rest, parsed, more);
            assert forall|x: TupId| #[trigger] v.nodes.dom().contains(x) implies
                w.tables.nodes.dom().contains(x) && v.nodes[x] == w.tables.nodes[x] by {
                assert(u.tables.nodes.dom().contains(x));
            }
            let all = r->Ok_0;
            assert(gone =~= all.subrange(0, gone.len() as int)) by {
                assert forall|i: int| 0 <= i < gone.len() implies gone[i] == all[i] by {
                    assert(more[i] == all.subrange(0, more.len() as int)[i]);
                }
            }
        }
        assert forall|i: int|
            0 <= i < dirs.len() && !has_path(parsed, (#[trigger] dirs[i]).1) implies !has_commands(
            v,
            dirs[i].0,
        ) by {
            if i > 0 {
                assert(rest[i - 1] == dirs[i]);
            } else if has_commands(v, dir) {
                let id = choose|id: TupId| #[trigger]
                    v.nodes.dom().contains(id) && v.nodes[id].dir == dir && v.nodes[id].node_type
                        == NodeType::Cmd;
                assert(w.tables.nodes.dom().contains(id));
                if has_commands(w.tables, dir) {
                    let u = w.store_rules(dir, Seq::empty()).0.tables;
                    assert(u.nodes.dom().contains(id));
                }
            }
        }
    }
}

/// Every generated file that goes with the commands of its directory is named by its path.
pub proof fn generated_files_that_go_are_named(
    w: World,
    dirs: Seq<(TupId, Seq<char>)>,
    parsed: Seq<Seq<char>>,
    gone: Seq<Seq<char>>,
    x: TupId,
)
    requires
        unique_names(w.tables.nodes),
        w.clean(dirs, parsed, gone).1 is Ok,
        w.tables.nodes.dom().contains(x),
        w.tables.nodes[x].node_type == NodeType::Generated,
        !w.clean(dirs, parsed, gone).0.tables.nodes.dom().contains(x),
    ensures
        exists|i: int|
            0 <= i < dirs.len() && (#[trigger] dirs[i]).0 == w.tables.nodes[x].dir && !has_path(
                parsed,
                dirs[i].1,
            ) && w.clean(dirs, parsed, gone).1->Ok_0.contains(
                path_join(dirs[i].1, w.tables.nodes[x].name),
            ),
    decreases dirs.len(),
{
    if dirs.len() > 0 {
        let (dir, path) = dirs[0];
        let rest = dirs.drop_first();
        let name = w.tables.nodes[x].name;
        if has_path(parsed, path) || !has_commands(w.tables, dir) {
            generated_files_that_go_are_named(w, rest, parsed, gone, x);
            let i = choose|i: int|
                0 <= i < rest.len() && (#[trigger] rest[i]).0 == w.tables.nodes[x].dir
                    && !has_path(parsed, rest[i].1) && w.clean(rest, parsed, gone).1->Ok_0.contains(
                    path_join(rest[i].1, name),
                );
            assert(dirs[i + 1] == rest[i]);
        } else {
            let none = Seq::<StoreText>::empty();
            let (u, done) = w.store_rules(dir, none);
            let stale = done->Ok_0.1;
            let more = gone + paths_in(path, stale);
            lemma_emptied(w, dir);
            if u.tables.nodes.dom().contains(x) {
                generated_files_that_go_are_named(u, rest, parsed, more, x);
                let i = choose|i: int|
                    0 <= i < rest.len() && (#[trigger] rest[i]).0 == u.tables.nodes[x].dir
                        && !has_path(parsed, rest[i].1) && u.clean(
                        rest,
                        parsed,
                        more,
                    ).1->Ok_0.contains(path_join(rest[i].1, u.tables.nodes[x].name));
                assert(dirs[i + 1] == rest[i]);
            } else {
                assert(done->Ok_0.0.len() == 0);
                what_no_rule_makes_goes(w, dir, none);
                assert(stale.contains(name));
                let k = choose|k: int| 0 <= k < stale.len() && stale[k] == name;
                let all = w.clean(dirs, parsed, gone).1->Ok_0;
                directories_without_rules_have_no_commands(u, rest, parsed, more);
                assert(more[gone.len() + k] == path_join(path, name));
                assert(all.subrange(0, more.len() as int)[gone.len() + k] == more[gone.len() + k]);
                assert(all[gone.len() + k] == path_join(path, name));
                assert(dirs[0].0 == w.tables.nodes[x].dir);
            }
        }
    }
}

} // verus!
