//! What holds of scripts in Lua.
use vstd::prelude::*;

use crate::parser::lua::{
    foreach_rule_call, plain_lua, plain_lua_line, quotes, rule_call, simple_rule, LuaText,
};
use crate::parser::rule::RuleText;
use crate::text::{find, is_space, trim};
use crate::text_laws::trimming_takes_white_space_away;

verus! {

/// Whether a rule has just these parts.
pub open spec fn has_parts(
    r: RuleText,
    foreach: bool,
    inputs: Seq<Seq<char>>,
    command: Seq<char>,
    outputs: Seq<Seq<char>>,
) -> bool {
    &&& r.foreach == foreach
    &&& r.inputs == inputs
    &&& r.had_inputs == (inputs.len() > 0)
    &&& r.command.command == command
    &&& r.command.display is None && r.command.flags is None
    &&& r.outputs == outputs
    &&& r.bin is None
}

/// A call of `tup.rule` gives a rule with the inputs, the command and the outputs that it was
/// given, and one of `tup.foreach_rule` the same rule for each input. A text stands for itself,
/// and an empty one for nothing.
pub proof fn calls_give_rules(
    i: Seq<Seq<char>>,
    c: Seq<char>,
    o: Seq<Seq<char>>,
    input: Seq<char>,
    output: Seq<char>,
)
    requires
        input.len() > 0,
        output.len() > 0,
    ensures
        ({
            let none = Seq::<Seq<char>>::empty();
            let ins = LuaText::Table { items: i, inputs: none, command: Seq::empty(), outputs: none };
            let outs = LuaText::Table {
                items: o,
                inputs: none,
                command: Seq::empty(),
                outputs: none,
            };
            let whole = LuaText::Table { items: none, inputs: i, command: c, outputs: o };
            let cmd = LuaText::Text(c);
            let blank = LuaText::Text(Seq::empty());
            &&& has_parts(rule_call(seq![cmd]), false, none, c, none)
            &&& has_parts(rule_call(seq![whole]), false, i, c, o)
            &&& has_parts(rule_call(seq![ins, cmd]), false, i, c, none)
            &&& has_parts(rule_call(seq![cmd, outs]), false, none, c, o)
            &&& has_parts(rule_call(seq![ins, cmd, outs]), false, i, c, o)
            &&& has_parts(
                rule_call(seq![LuaText::Text(input), cmd, LuaText::Text(output)]),
                false,
                seq![input],
                c,
                seq![output],
            )
            &&& has_parts(rule_call(seq![blank, cmd, blank]), false, none, c, none)
            &&& has_parts(foreach_rule_call(seq![ins, cmd]), true, i, c, none)
            &&& has_parts(foreach_rule_call(seq![ins, cmd, outs]), true, i, c, o)
            &&& has_parts(
                foreach_rule_call(seq![LuaText::Text(input), cmd, LuaText::Text(output)]),
                true,
                seq![input],
                c,
                seq![output],
            )
        }),
{
}

/// No call of `tup.rule` or `tup.foreach_rule` gives order-only inputs or extra outputs; a
/// defined rule has those that it was given.
pub proof fn further_files_are_defined(
    args: Seq<LuaText>,
    foreach: bool,
    i: Seq<Seq<char>>,
    more: Seq<Seq<char>>,
    c: Seq<char>,
    o: Seq<Seq<char>>,
    extra: Seq<Seq<char>>,
)
    ensures
        rule_call(args).order_only_inputs.len() == 0,
        rule_call(args).extra_outputs.len() == 0,
        foreach_rule_call(args).order_only_inputs.len() == 0,
        foreach_rule_call(args).extra_outputs.len() == 0,
        has_parts(simple_rule(foreach, i, more, c, o, extra), foreach, i, c, o),
        simple_rule(foreach, i, more, c, o, extra).order_only_inputs == more,
        simple_rule(foreach, i, more, c, o, extra).extra_outputs == extra,
{
}

proof fn lemma_find_append(a: Seq<char>, b: Seq<char>)
    requires
        !a.contains('+'),
    ensures
        find(a + "+="@ + b, "+="@) == Some(a.len() as int),
    decreases a.len(),
{
    reveal_strlit("+=");
    let pat = "+="@;
    let s = a + pat + b;
    if a.len() == 0 {
        assert(s.subrange(0, pat.len() as int) =~= pat);
    } else {
        let rest = a.drop_first();
        assert(a.contains(a[0]));
        assert(!rest.contains('+')) by {
            if rest.contains('+') {
                let i = choose|i: int| 0 <= i < rest.len() && rest[i] == '+';
                assert(a[i + 1] == '+');
            }
        }
        lemma_find_append(rest, b);
        assert(s[0] == a[0]);
        assert(pat[0] == '+');
        assert(!pat.is_prefix_of(s)) by {
            if pat.is_prefix_of(s) {
                assert(s.subrange(0, pat.len() as int)[0] == pat[0]);
            }
        }
        assert(s.drop_first() =~= rest + pat + b);
    }
}

/// Quotation marks of both kinds count, and no other character does.
pub proof fn quotation_marks_are_counted(a: Seq<char>, b: Seq<char>, c: char)
    ensures
        quotes(a + b) == quotes(a) + quotes(b),
        quotes(seq![c]) == if c == '"' || c == '\'' {
            1nat
        } else {
            0nat
        },
        quotes(Seq::empty()) == 0,
    decreases b.len(),
{
    let one = seq![c];
    assert(one.drop_last() =~= Seq::empty());
    assert(one.last() == c);
    assert(quotes(one.drop_last()) == 0);
    if b.len() == 0 {
        assert(a + b =~= a);
    } else {
        quotation_marks_are_counted(a, b.drop_last(), c);
        assert((a + b).drop_last() =~= a + b.drop_last());
        assert((a + b).last() == b.last());
    }
}

proof fn lemma_no_quotes(a: Seq<char>)
    requires
        !a.contains('"'),
        !a.contains('\''),
    ensures
        quotes(a) == 0,
    decreases a.len(),
{
    if a.len() > 0 {
        let b = a.drop_last();
        assert(a.contains(a[a.len() - 1]));
        assert(!b.contains('"')) by {
            if b.contains('"') {
                let i = choose|i: int| 0 <= i < b.len() && b[i] == '"';
                assert(a[i] == '"');
            }
        }
        assert(!b.contains('\'')) by {
            if b.contains('\'') {
                let i = choose|i: int| 0 <= i < b.len() && b[i] == '\'';
                assert(a[i] == '\'');
            }
        }
        lemma_no_quotes(b);
    }
}

/// A line `name += value` becomes an assignment of what the append function gives for the name
/// and the value, unless the line is a comment or the operator stands in a string.
pub proof fn values_are_appended(name: Seq<char>, value: Seq<char>, q: char, more: Seq<char>)
    requires
        !name.contains('+') && !name.contains('"') && !name.contains('\''),
        !more.contains('+') && !more.contains('"') && !more.contains('\''),
        !("--"@.is_prefix_of(trim(name + "+="@ + value))),
        q == '"' || q == '\'',
    ensures
        plain_lua_line(name + "+="@ + value) == trim(name) + " = tup_append_assignment("@ + trim(
            name,
        ) + ", "@ + trim(value) + ")\n"@,
        plain_lua_line(name + seq![q] + more + "+="@ + value) == (name + seq![q] + more + "+="@
            + value).push('\n'),
{
    reveal_strlit("+=");
    let line = name + "+="@ + value;
    lemma_find_append(name, value);
    lemma_no_quotes(name);
    assert(line.take(name.len() as int) =~= name);
    assert(line.skip(name.len() as int + 2) =~= value);
    let open = name + seq![q] + more;
    assert(!open.contains('+')) by {
        if open.contains('+') {
            let i = choose|i: int| 0 <= i < open.len() && open[i] == '+';
            if i < name.len() {
                assert(name[i] == '+');
            } else if i > name.len() {
                assert(more[i - name.len() - 1] == '+');
            }
        }
    }
    lemma_find_append(open, value);
    lemma_no_quotes(more);
    quotation_marks_are_counted(name, seq![q], q);
    quotation_marks_are_counted(name + seq![q], more, q);
    assert(quotes(open) == 1);
    assert((open + "+="@ + value).take(open.len() as int) =~= open);
}

/// The lines of a script are turned one after the other; a comment stays as it is.
pub proof fn lines_of_scripts_are_turned_in_order(
    a: Seq<Seq<char>>,
    b: Seq<Seq<char>>,
    line: Seq<char>,
    comment: Seq<char>,
)
    ensures
        plain_lua(a + b) == plain_lua(a) + plain_lua(b),
        plain_lua(seq![line]) == plain_lua_line(line),
        plain_lua(Seq::empty()) == Seq::<char>::empty(),
        plain_lua_line("--"@ + comment) == ("--"@ + comment).push('\n'),
    decreases b.len(),
{
    let one = seq![line];
    assert(one.drop_last() =~= Seq::empty());
    assert(one.last() == line);
    assert(plain_lua(one.drop_last()) =~= Seq::empty());
    assert(plain_lua(one) =~= plain_lua_line(line));
    lemma_comment(comment);
    if b.len() == 0 {
        assert(a + b =~= a);
        assert(plain_lua(a) + plain_lua(b) =~= plain_lua(a));
    } else {
        lines_of_scripts_are_turned_in_order(a, b.drop_last(), line, comment);
        assert((a + b).drop_last() =~= a + b.drop_last());
        assert((a + b).last() == b.last());
        assert(plain_lua(a + b) =~= plain_lua(a) + plain_lua(b));
    }
}

proof fn lemma_comment(comment: Seq<char>)
    ensures
        "--"@.is_prefix_of(trim("--"@ + comment)),
{
    reveal_strlit("--");
    let line = "--"@ + comment;
    trimming_takes_white_space_away(line);
    let (from, to) = choose|from: int, to: int|
        #![trigger line.subrange(from, to)]
        {
            &&& 0 <= from <= to <= line.len()
            &&& trim(line) == line.subrange(from, to)
            &&& forall|i: int| 0 <= i < from ==> is_space(#[trigger] line[i])
            &&& forall|i: int| to <= i < line.len() ==> is_space(#[trigger] line[i])
        };
    assert(line[0] == '-' && line[1] == '-');
    assert(!is_space('-'));
    assert(from == 0 && to >= 2);
    assert(trim(line).subrange(0, 2) =~= "--"@);
}

} // verus!
