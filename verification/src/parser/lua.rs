//! Rules that a `Tupfile.lua` defines.
use vstd::prelude::*;

use crate::parser::line::ended;
use crate::parser::rule::{CommandText, Rule, RuleCommand, RuleText};
use crate::text::{
    copy_strings, find, lines, str_find, str_lines, str_skip, str_starts_with, str_take, str_trim,
    texts, to_chars, trim,
};

verus! {

/// An argument of a rule function.
#[derive(Debug)]
pub enum LuaArg {
    /// A string.
    Text(String),
    /// A table: the strings of its list part, and its first three values, read
    /// as a table of inputs, a command and a table of outputs.
    Table {
        items: Vec<String>,
        inputs: Vec<String>,
        command: String,
        outputs: Vec<String>,
    },
    /// A value of another type.
    Other,
}

/// An argument as texts.
#[verifier::ext_equal]
pub enum LuaText {
    Text(Seq<char>),
    Table {
        items: Seq<Seq<char>>,
        inputs: Seq<Seq<char>>,
        command: Seq<char>,
        outputs: Seq<Seq<char>>,
    },
    Other,
}

impl View for LuaArg {
    type V = LuaText;

    open spec fn view(&self) -> LuaText {
        match *self {
            LuaArg::Text(s) => LuaText::Text(s@),
            LuaArg::Table { items, inputs, command, outputs } => LuaText::Table {
                items: texts(items@),
                inputs: texts(inputs@),
                command: command@,
                outputs: texts(outputs@),
            },
            LuaArg::Other => LuaText::Other,
        }
    }
}

pub open spec fn lua_texts(v: Seq<LuaArg>) -> Seq<LuaText> {
    Seq::new(v.len(), |i: int| v[i]@)
}

/// The strings that an argument stands for: itself, unless it is empty, or the
/// items of a table.
pub open spec fn arg_items(a: LuaText) -> Seq<Seq<char>> {
    match a {
        LuaText::Text(s) => if s.len() == 0 {
            Seq::empty()
        } else {
            seq![s]
        },
        LuaText::Table { items, .. } => items,
        LuaText::Other => Seq::empty(),
    }
}

/// The command that an argument stands for.
pub open spec fn arg_command(a: LuaText) -> Seq<char> {
    match a {
        LuaText::Text(s) => s,
        _ => Seq::empty(),
    }
}

/// A rule made of inputs, a command and outputs.
pub open spec fn simple_rule(
    foreach: bool,
    inputs: Seq<Seq<char>>,
    extra_inputs: Seq<Seq<char>>,
    command: Seq<char>,
    outputs: Seq<Seq<char>>,
    extra_outputs: Seq<Seq<char>>,
) -> RuleText {
    RuleText {
        foreach,
        inputs,
        order_only_inputs: extra_inputs,
        command: CommandText { display: None, flags: None, command },
        outputs,
        extra_outputs,
        line_number: 0,
        had_inputs: inputs.len() != 0,
        vars_snapshot: None,
        bin: None,
    }
}

/// The rule of `tup.rule`, which takes a command, inputs and a command, a
/// command and outputs, or all three.
pub open spec fn rule_call(args: Seq<LuaText>) -> RuleText {
    let none = Seq::<Seq<char>>::empty();
    if args.len() == 1 {
        match args[0] {
            LuaText::Text(s) => simple_rule(false, none, none, s, none, none),
            LuaText::Table { inputs, command, outputs, .. } => simple_rule(
                false,
                inputs,
                none,
                command,
                outputs,
                none,
            ),
            LuaText::Other => simple_rule(false, none, none, Seq::empty(), none, none),
        }
    } else if args.len() == 2 {
        match (args[0], args[1]) {
            (LuaText::Table { items, .. }, LuaText::Text(s)) => simple_rule(
                false,
                items,
                none,
                s,
                none,
                none,
            ),
            (LuaText::Text(s), LuaText::Table { items, .. }) => simple_rule(
                false,
                none,
                none,
                s,
                items,
                none,
            ),
            _ => simple_rule(false, none, none, Seq::empty(), none, none),
        }
    } else if args.len() == 3 {
        simple_rule(
            false,
            arg_items(args[0]),
            none,
            arg_command(args[1]),
            arg_items(args[2]),
            none,
        )
    } else {
        simple_rule(false, none, none, Seq::empty(), none, none)
    }
}

/// The rule of `tup.foreach_rule`, which takes inputs, a command, and perhaps
/// outputs.
pub open spec fn foreach_rule_call(args: Seq<LuaText>) -> RuleText {
    let none = Seq::<Seq<char>>::empty();
    if args.len() == 2 {
        simple_rule(true, arg_items(args[0]), none, arg_command(args[1]), none, none)
    } else if args.len() == 3 {
        simple_rule(
            true,
            arg_items(args[0]),
            none,
            arg_command(args[1]),
            arg_items(args[2]),
            none,
        )
    } else {
        simple_rule(true, none, none, Seq::empty(), none, none)
    }
}

fn make_rule(
    foreach: bool,
    inputs: Vec<String>,
    extra_inputs: Vec<String>,
    command: String,
    outputs: Vec<String>,
    extra_outputs: Vec<String>,
) -> (r: Rule)
    ensures
        r@ == simple_rule(
            foreach,
            texts(inputs@),
            texts(extra_inputs@),
            command@,
            texts(outputs@),
            texts(extra_outputs@),
        ),
{
    let had_inputs = inputs.len() != 0;
    assert(texts(inputs@).len() == inputs@.len());
    Rule {
        foreach,
        inputs,
        order_only_inputs: extra_inputs,
        command: RuleCommand { display: None, flags: None, command },
        outputs,
        extra_outputs,
        line_number: 0,
        had_inputs,
        vars_snapshot: None,
        bin: None,
    }
}

/// The rule of `tup.definerule`, from the fields of its table.
pub fn definerule(
    foreach: bool,
    inputs: Vec<String>,
    extra_inputs: Vec<String>,
    command: String,
    outputs: Vec<String>,
    extra_outputs: Vec<String>,
) -> (r: Rule)
    ensures
        r@ == simple_rule(
            foreach,
            texts(inputs@),
            texts(extra_inputs@),
            command@,
            texts(outputs@),
            texts(extra_outputs@),
        ),
{
    make_rule(foreach, inputs, extra_inputs, command, outputs, extra_outputs)
}

/// The strings that an argument stands for.
pub fn lua_value_to_string_vec(val: &LuaArg) -> (r: Vec<String>)
    ensures
        texts(r@) == arg_items(val@),
{
    match val {
        LuaArg::Text(s) => {
            let mut out: Vec<String> = Vec::new();
            if !s.as_str().is_empty() {
                out.push(s.clone());
                assert(texts(out@) =~= seq![s@]);
            } else {
                assert(texts(out@) =~= Seq::empty());
            }
            out
        },
        LuaArg::Table { items, .. } => copy_strings(items.as_slice()),
        LuaArg::Other => {
            let out: Vec<String> = Vec::new();
            assert(texts(out@) =~= Seq::empty());
            out
        },
    }
}

fn command_of(val: &LuaArg) -> (r: String)
    ensures
        r@ == arg_command(val@),
{
    match val {
        LuaArg::Text(s) => s.clone(),
        _ => String::new(),
    }
}

/// The rule of `tup.rule`.
pub fn lua_rule(args: &[LuaArg]) -> (r: Rule)
    ensures
        r@ == rule_call(lua_texts(args@)),
{
    let mut inputs: Vec<String> = Vec::new();
    let mut command = String::new();
    let mut outputs: Vec<String> = Vec::new();
    let none: Vec<String> = Vec::new();
    let none2: Vec<String> = Vec::new();
    assert(texts(none@) =~= Seq::empty());
    if args.len() == 1 {
        match &args[0] {
            LuaArg::Text(s) => {
                command = s.clone();
            },
            LuaArg::Table { inputs: i, command: c, outputs: o, .. } => {
                inputs = copy_strings(i.as_slice());
                command = c.clone();
                outputs = copy_strings(o.as_slice());
            },
            LuaArg::Other => {},
        }
    } else if args.len() == 2 {
        match (&args[0], &args[1]) {
            (LuaArg::Table { items, .. }, LuaArg::Text(s)) => {
                inputs = copy_strings(items.as_slice());
                command = s.clone();
            },
            (LuaArg::Text(s), LuaArg::Table { items, .. }) => {
                command = s.clone();
                outputs = copy_strings(items.as_slice());
            },
            _ => {},
        }
    } else if args.len() == 3 {
        command = command_of(&args[1]);
        inputs = lua_value_to_string_vec(&args[0]);
        outputs = lua_value_to_string_vec(&args[2]);
    }
    make_rule(false, inputs, none, command, outputs, none2)
}

/// The rule of `tup.foreach_rule`.
pub fn lua_foreach_rule(args: &[LuaArg]) -> (r: Rule)
    ensures
        r@ == foreach_rule_call(lua_texts(args@)),
{
    let mut inputs: Vec<String> = Vec::new();
    let mut command = String::new();
    let mut outputs: Vec<String> = Vec::new();
    let none: Vec<String> = Vec::new();
    let none2: Vec<String> = Vec::new();
    assert(texts(none@) =~= Seq::empty());
    if args.len() == 2 {
        inputs = lua_value_to_string_vec(&args[0]);
        command = command_of(&args[1]);
    } else if args.len() == 3 {
        inputs = lua_value_to_string_vec(&args[0]);
        command = command_of(&args[1]);
        outputs = lua_value_to_string_vec(&args[2]);
    }
    make_rule(true, inputs, none, command, outputs, none2)
}

/// The number of quotation marks in a text.
pub open spec fn quotes(s: Seq<char>) -> nat
    decreases s.len(),
{
    if s.len() == 0 {
        0
    } else if s.last() == '"' || s.last() == '\'' {
        quotes(s.drop_last()) + 1
    } else {
        quotes(s.drop_last())
    }
}

/// Where a line has the operator `+=`: its first occurrence, unless the line is
/// a comment or an odd number of quotation marks stands before it.
pub open spec fn plus_equals(line: Seq<char>) -> Option<int> {
    if "--"@.is_prefix_of(trim(line)) {
        None
    } else {
        match find(line, "+="@) {
            Some(k) => if quotes(line.take(k)) % 2 == 0 {
                Some(k)
            } else {
                None
            },
            None => None,
        }
    }
}

/// A line in which `a += b` is a call of the append function.
pub open spec fn plain_lua_line(line: Seq<char>) -> Seq<char> {
    match plus_equals(line) {
        Some(k) => {
            let name = trim(line.take(k));
            name + " = tup_append_assignment("@ + name + ", "@ + trim(line.skip(k + 2)) + ")\n"@
        },
        None => line.push('\n'),
    }
}

/// A script in which `a += b` is a call of the append function.
pub open spec fn plain_lua(ls: Seq<Seq<char>>) -> Seq<char>
    decreases ls.len(),
{
    if ls.len() == 0 {
        Seq::empty()
    } else {
        plain_lua(ls.drop_last()) + plain_lua_line(ls.last())
    }
}

/// A script without `+=` stays as it is.
pub proof fn scripts_without_append_stay(ls: Seq<Seq<char>>)
    requires
        forall|i: int| 0 <= i < ls.len() ==> plus_equals(#[trigger] ls[i]) is None,
    ensures
        plain_lua(ls) == ended(ls),
    decreases ls.len(),
{
    if ls.len() > 0 {
        let b = ls.drop_last();
        assert forall|i: int| 0 <= i < b.len() implies plus_equals(#[trigger] b[i]) is None by {
            assert(b[i] == ls[i]);
        }
        scripts_without_append_stay(b);
        assert(ls.last() == ls[ls.len() - 1]);
        assert(plain_lua(ls) =~= ended(ls));
    }
}

fn even_quotes(s: &str) -> (r: bool)
    ensures
        r == (quotes(s@) % 2 == 0),
{
    let v = to_chars(s);
    let mut even = true;
    let mut i: usize = 0;
    while i < v.len()
        invariant
            i <= v.len(),
            v@ == s@,
            even == (quotes(s@.take(i as int)) % 2 == 0),
        decreases v.len() - i,
    {
        assert(s@.take(i + 1).drop_last() =~= s@.take(i as int));
        if v[i] == '"' || v[i] == '\'' {
            even = !even;
        }
        i += 1;
    }
    assert(s@.take(v@.len() as int) =~= s@);
    even
}

/// Rewrites `var += value` as `var = tup_append_assignment(var, value)`, which
/// plain Lua understands.
pub fn preprocess_lua_plus_equals(content: &str) -> (r: String)
    ensures
        r@ == plain_lua(lines(content@)),
{
    let ls = str_lines(content);
    let ghost all = texts(ls@);
    let mut out = String::new();
    let mut i: usize = 0;
    proof {
        reveal_strlit("+=");
    }
    while i < ls.len()
        invariant
            i <= ls@.len(),
            all == texts(ls@),
            "+="@.len() == 2,
            out@ == plain_lua(all.take(i as int)),
        decreases ls.len() - i,
    {
        proof {
            assert(all.take(i + 1).drop_last() =~= all.take(i as int));
            assert(all.take(i + 1).last() == ls@[i as int]@);
        }
        let line = ls[i].as_str();
        let ghost done = out@;
        let at = if str_starts_with(str_trim(line), "--") {
            None
        } else {
            match str_find(line, "+=") {
                Some(k) => if even_quotes(str_take(line, k)) {
                    Some(k)
                } else {
                    None
                },
                None => None,
            }
        };
        match at {
            Some(k) => {
                let name = str_trim(str_take(line, k));
                let value = str_trim(str_skip(line, k + 2));
                out.append(name);
                out.append(" = tup_append_assignment(");
                out.append(name);
                out.append(", ");
                out.append(value);
                out.append(")\n");
                assert(out@ =~= done + plain_lua_line(line@));
            },
            None => {
                out.append(line);
                out.push('\n');
                assert(out@ =~= done + plain_lua_line(line@));
            },
        }
        i += 1;
    }
    assert(all.take(all.len() as int) =~= all);
    out
}

} // verus!
