//! What holds of the evaluation of a Tupfile.
use vstd::prelude::*;

use crate::parser::bang::bare_name;
use crate::parser::line::{parsed_content, LineText};
use crate::parser::reader::{
    active, asks, enter, eval_file, eval_line, eval_lines, eval_rules, expand_items, file_dir, later,
    step, AnswerText, DirsText, LineState, Outcome, RequestText, ScopeText, MAX_IF_DEPTH,
};
use crate::parser::rule::RuleText;
use crate::parser::vardb::VarTables;
use crate::paths::{path_join, up_chain};
use crate::text::{trim_start_matches, words};

verus! {

proof fn lemma_one_more(ifs: Seq<bool>, b: bool)
    ensures
        active(ifs.push(b)) <==> active(ifs) && b,
{
    let more = ifs.push(b);
    if active(more) {
        assert forall|i: int| 0 <= i < ifs.len() implies #[trigger] ifs[i] by {
            assert(more[i] == ifs[i]);
        }
        assert(more[ifs.len() as int] == b);
    }
    if active(ifs) && b {
        assert forall|i: int| 0 <= i < more.len() implies #[trigger] more[i] by {
            if i < ifs.len() {
                assert(more[i] == ifs[i]);
            }
        }
    }
}

/// The lines after a conditional are active where those around it are and its
/// condition holds: `ifdef` asks whether a variable has a value, `ifndef` whether
/// it has none, `ifeq` whether two texts are the same after expansion, and `ifneq`
/// whether they differ. Nothing else changes.
pub proof fn conditions_decide_what_is_active(
    st: LineState,
    v: Seq<char>,
    a: Seq<char>,
    b: Seq<char>,
    n: usize,
)
    requires
        st.ifs.len() < MAX_IF_DEPTH,
    ensures
        ({
            let vars = st.scope.vars;
            let around = forall|i: int| 0 <= i < st.ifs.len() ==> #[trigger] st.ifs[i];
            let ifdef = step(st, LineText::Ifdef(v), n);
            let ifndef = step(st, LineText::Ifndef(v), n);
            let ifeq = step(st, LineText::Ifeq(a, b), n);
            let ifneq = step(st, LineText::Ifneq(a, b), n);
            &&& ifdef.1 is None && ifndef.1 is None && ifeq.1 is None && ifneq.1 is None
            &&& active(ifdef.0.ifs) <==> around && vars.vars.dom().contains(v)
            &&& active(ifndef.0.ifs) <==> around && !vars.vars.dom().contains(v)
            &&& active(ifeq.0.ifs) <==> around && vars.expand(a) == vars.expand(b)
            &&& active(ifneq.0.ifs) <==> around && vars.expand(a) != vars.expand(b)
            &&& ifdef.0.scope == st.scope && ifdef.0.rules == st.rules
            &&& ifndef.0.scope == st.scope && ifndef.0.rules == st.rules
            &&& ifeq.0.scope == st.scope && ifeq.0.rules == st.rules
            &&& ifneq.0.scope == st.scope && ifneq.0.rules == st.rules
        }),
{
    let vars = st.scope.vars;
    lemma_one_more(st.ifs, vars.get(v) is Some);
    lemma_one_more(st.ifs, vars.get(v) is None);
    lemma_one_more(st.ifs, vars.expand(a) == vars.expand(b));
    lemma_one_more(st.ifs, vars.expand(a) != vars.expand(b));
}

/// A conditional is refused where as many of them as are allowed are open, an `else`
/// and an `endif` where none is open.
pub proof fn conditionals_are_counted(st: LineState, l: LineText, n: usize)
    ensures
        (l is Ifdef || l is Ifndef || l is Ifeq || l is Ifneq) ==> {
            &&& step(st, l, n).1 is Some <==> st.ifs.len() >= 8
            &&& step(st, l, n).1 is Some ==> step(st, l, n).0 == st
            &&& step(st, l, n).1 is None ==> step(st, l, n).0.ifs.len() == st.ifs.len() + 1
                && step(st, l, n).0.ifs.drop_last() == st.ifs
        },
        l is Else ==> {
            &&& step(st, l, n).1 is Some <==> st.ifs.len() == 0
            &&& step(st, l, n).1 is None ==> step(st, l, n).0.ifs.len() == st.ifs.len()
                && step(st, l, n).0.ifs.last() == !st.ifs.last()
                && step(st, l, n).0.ifs.drop_last() == st.ifs.drop_last()
        },
        l is Endif ==> {
            &&& step(st, l, n).1 is Some <==> st.ifs.len() == 0
            &&& step(st, l, n).1 is None ==> step(st, l, n).0.ifs == st.ifs.drop_last()
        },
{
    let after = step(st, l, n).0.ifs;
    if (l is Ifdef || l is Ifndef || l is Ifeq || l is Ifneq) && st.ifs.len() < 8 {
        assert(after.drop_last() =~= st.ifs);
    }
    if l is Else && st.ifs.len() > 0 {
        assert(after.drop_last() =~= st.ifs.drop_last());
    }
}

/// An assignment gives a variable the expanded value and leaves every other one as
/// it is; an appended value stands behind what the variable has, with a space
/// between them.
pub proof fn assignments_set_variables(
    st: LineState,
    name: Seq<char>,
    value: Seq<char>,
    other: Seq<char>,
    n: usize,
)
    requires
        forall|i: int| 0 <= i < st.ifs.len() ==> #[trigger] st.ifs[i],
        other != st.scope.vars.expand(name),
    ensures
        ({
            let vars = st.scope.vars;
            let key = vars.expand(name);
            let (set, e) = step(st, LineText::VarAssign { name, value }, n);
            let (more, f) = step(st, LineText::VarAppend { name, value }, n);
            let was = if vars.vars.dom().contains(key) {
                vars.vars[key]
            } else {
                Seq::empty()
            };
            &&& e is None && f is None
            &&& set.ifs == st.ifs && set.rules == st.rules
            &&& more.ifs == st.ifs && more.rules == st.rules
            &&& set.scope.bangs == st.scope.bangs && set.scope.gitignore == st.scope.gitignore
            &&& more.scope.bangs == st.scope.bangs && more.scope.gitignore == st.scope.gitignore
            &&& set.scope.vars.config == vars.config && more.scope.vars.config == vars.config
            &&& set.scope.vars.vars.dom().contains(key)
            &&& set.scope.vars.vars[key] == vars.expand(value)
            &&& set.scope.vars.vars.dom().contains(other) == vars.vars.dom().contains(other)
            &&& set.scope.vars.vars[other] == vars.vars[other]
            &&& more.scope.vars.vars.dom().contains(key)
            &&& was.len() == 0 ==> more.scope.vars.vars[key] == vars.expand(value)
            &&& was.len() > 0 ==> more.scope.vars.vars[key] == was + seq![' '] + vars.expand(value)
            &&& more.scope.vars.vars.dom().contains(other) == vars.vars.dom().contains(other)
            &&& more.scope.vars.vars[other] == vars.vars[other]
        }),
{
}

/// Two lists of items, one after the other, give the words of the first and then
/// those of the second; one item gives the words of its expansion.
pub proof fn items_are_expanded_in_order(
    vars: VarTables,
    a: Seq<Seq<char>>,
    b: Seq<Seq<char>>,
    item: Seq<char>,
)
    ensures
        expand_items(vars, a + b) == expand_items(vars, a) + expand_items(vars, b),
        expand_items(vars, seq![item]) == words(vars.expand(item)),
        expand_items(vars, Seq::empty()) == Seq::<Seq<char>>::empty(),
    decreases b.len(),
{
    let one = seq![item];
    assert(one.drop_last() =~= Seq::empty());
    assert(one.last() == item);
    assert(expand_items(vars, Seq::empty()) =~= Seq::<Seq<char>>::empty());
    assert(expand_items(vars, one) == expand_items(vars, one.drop_last()) + words(vars.expand(item)));
    assert(expand_items(vars, one) =~= words(vars.expand(item)));
    if b.len() == 0 {
        assert(a + b =~= a);
        assert(expand_items(vars, a + b) =~= expand_items(vars, a) + expand_items(vars, b));
    } else {
        items_are_expanded_in_order(vars, a, b.drop_last(), item);
        assert((a + b).drop_last() =~= a + b.drop_last());
        assert((a + b).last() == b.last());
        assert(expand_items(vars, a + b) =~= expand_items(vars, a) + expand_items(vars, b));
    }
}

/// A rule line whose command is no macro adds one rule behind those that are there:
/// with the words of its expanded inputs, order-only inputs and outputs, and with
/// everything else of the line as it stands.
pub proof fn a_rule_line_adds_its_rule(st: LineState, r: RuleText, n: usize)
    requires
        forall|i: int| 0 <= i < st.ifs.len() ==> #[trigger] st.ifs[i],
        ({
            let c = st.scope.vars.expand(r.command.command);
            c.len() == 0 || c[0] != '!'
        }),
    ensures
        ({
            let vars = st.scope.vars;
            let (after, e) = step(st, LineText::Rule(r), n);
            let x = after.rules.last();
            &&& e is None
            &&& after.scope == st.scope && after.ifs == st.ifs
            &&& after.rules.len() == st.rules.len() + 1
            &&& after.rules.drop_last() == st.rules
            &&& x.foreach == r.foreach
            &&& x.line_number == r.line_number
            &&& x.bin == r.bin
            &&& x.had_inputs == r.had_inputs
            &&& x.vars_snapshot == r.vars_snapshot
            &&& x.command.flags == r.command.flags
            &&& x.command.command == vars.expand(r.command.command)
            &&& x.command.display is Some <==> r.command.display is Some
            &&& r.command.display matches Some(d) ==> x.command.display == Some(vars.expand(d))
            &&& x.inputs == expand_items(vars, r.inputs)
            &&& x.order_only_inputs == expand_items(vars, r.order_only_inputs)
            &&& x.outputs == expand_items(vars, r.outputs)
            &&& x.extra_outputs == expand_items(vars, r.extra_outputs)
        }),
{
    let after = step(st, LineText::Rule(r), n).0;
    assert(after.rules.drop_last() =~= st.rules);
}

/// A line that asks for an ignore file notes that and nothing else; `error` lines and
/// lines that are not understood stop the evaluation and change nothing.
pub proof fn other_lines(st: LineState, text: Seq<char>, n: usize)
    requires
        forall|i: int| 0 <= i < st.ifs.len() ==> #[trigger] st.ifs[i],
    ensures
        ({
            let (after, e) = step(st, LineText::GitIgnore, n);
            &&& e is None
            &&& after.scope.gitignore
            &&& after.scope.vars == st.scope.vars && after.scope.bangs == st.scope.bangs
            &&& after.ifs == st.ifs && after.rules == st.rules
        }),
        step(st, LineText::Error(text), n).1 is Some,
        step(st, LineText::Error(text), n).0 == st,
        step(st, LineText::Unknown(text), n).1 is Some,
        step(st, LineText::Unknown(text), n).0 == st,
{
}

/// The rules that are found stay, in their order, whatever is evaluated after them.
pub proof fn found_rules_stay(
    d: DirsText,
    st: LineState,
    used: nat,
    lines: Seq<(LineText, usize)>,
    answers: Seq<AnswerText>,
)
    ensures
        st.rules.is_prefix_of(eval_lines(d, st, used, lines, answers).st.rules),
    decreases lines.len(),
{
    if lines.len() > 0 {
        let o = eval_line(d, st, used, lines[0], answers);
        lemma_line_keeps(d, st, used, lines[0], answers);
        if o.outcome is Done {
            found_rules_stay(d, o.st, later(used, o.used), lines.drop_first(), answers);
            let end = eval_lines(d, o.st, later(used, o.used), lines.drop_first(), answers).st.rules;
            lemma_prefix(st.rules, o.st.rules, end);
        }
    }
}

proof fn lemma_prefix(a: Seq<RuleText>, b: Seq<RuleText>, c: Seq<RuleText>)
    requires
        a.is_prefix_of(b),
        b.is_prefix_of(c),
    ensures
        a.is_prefix_of(c),
{
    assert(a =~= c.subrange(0, a.len() as int)) by {
        assert forall|i: int| 0 <= i < a.len() implies a[i] == c[i] by {
            assert(a[i] == b.subrange(0, a.len() as int)[i]);
            assert(b[i] == c.subrange(0, b.len() as int)[i]);
        }
    }
}

proof fn lemma_longer(a: Seq<RuleText>, more: Seq<RuleText>)
    ensures
        a.is_prefix_of(a + more),
        a.is_prefix_of(a),
{
    assert((a + more).subrange(0, a.len() as int) =~= a);
    assert(a.subrange(0, a.len() as int) =~= a);
}

proof fn lemma_rules_keep(
    d: DirsText,
    st: LineState,
    used: nat,
    n: usize,
    chain: Seq<Seq<char>>,
    found: Seq<AnswerText>,
    answers: Seq<AnswerText>,
)
    ensures
        st.rules.is_prefix_of(eval_rules(d, st, used, n, chain, found, answers).st.rules),
    decreases chain.len(),
{
    lemma_longer(st.rules, Seq::empty());
    if chain.len() > 0 {
        let path = path_join(chain.last(), "Tuprules.tup"@);
        let o = eval_file(
            d,
            st,
            used,
            n,
            path,
            "failed to read Tuprules.tup: "@,
            found.last(),
            answers,
        );
        assert(st.rules.is_prefix_of(o.st.rules)) by {
            lemma_longer(st.rules, o.st.rules.skip(st.rules.len() as int));
            lemma_file_keeps(
                d,
                st,
                used,
                n,
                path,
                "failed to read Tuprules.tup: "@,
                found.last(),
                answers,
            );
        }
        if o.outcome is Done {
            let (c, f, u) = (chain.drop_last(), found.drop_last(), later(used, o.used));
            lemma_rules_keep(d, o.st, u, n, c, f, answers);
            lemma_prefix(st.rules, o.st.rules, eval_rules(d, o.st, u, n, c, f, answers).st.rules);
        }
    }
}

proof fn lemma_file_keeps(
    d: DirsText,
    st: LineState,
    used: nat,
    n: usize,
    path: Seq<char>,
    complaint: Seq<char>,
    answer: AnswerText,
    answers: Seq<AnswerText>,
)
    ensures
        st.rules.is_prefix_of(
            eval_file(d, st, used, n, path, complaint, answer, answers).st.rules,
        ),
{
    let o = eval_file(d, st, used, n, path, complaint, answer, answers);
    lemma_longer(st.rules, Seq::empty());
    assert forall|more: Seq<RuleText>| o.st.rules == #[trigger] (st.rules + more) implies st.rules.is_prefix_of(
        o.st.rules,
    ) by {
        lemma_longer(st.rules, more);
    }
}

proof fn lemma_line_keeps(
    d: DirsText,
    st: LineState,
    used: nat,
    line: (LineText, usize),
    answers: Seq<AnswerText>,
)
    ensures
        st.rules.is_prefix_of(eval_line(d, st, used, line, answers).st.rules),
{
    let (l, n) = line;
    let o = eval_line(d, st, used, line, answers);
    lemma_longer(st.rules, Seq::empty());
    assert forall|more: Seq<RuleText>| o.st.rules == #[trigger] (st.rules + more) implies st.rules.is_prefix_of(
        o.st.rules,
    ) by {
        lemma_longer(st.rules, more);
    }
    if !asks(d, st, l) {
        if o.st.rules != st.rules {
            assert(o.st.rules =~= st.rules + seq![o.st.rules.last()]);
        }
    } else {
        match l {
            LineText::IncludeRules => {
                let chain = up_chain(d.base->0, d.root->0);
                if used + chain.len() <= answers.len() && chain.len() > 0 {
                    let found = answers.subrange(used as int, used + chain.len() as int);
                    lemma_rules_keep(d, st, used + chain.len(), n, chain, found, answers);
                }
            },
            _ => {},
        }
    }
}

/// Lines that end in good order, followed by others, leave the others what they would
/// find had the first ones stood in a file of their own: the evaluation goes on
/// from where those ended.
pub proof fn evaluation_goes_on(
    d: DirsText,
    st: LineState,
    used: nat,
    a: Seq<(LineText, usize)>,
    b: Seq<(LineText, usize)>,
    answers: Seq<AnswerText>,
)
    requires
        eval_lines(d, st, used, a, answers).outcome is Done,
    ensures
        ({
            let o = eval_lines(d, st, used, a, answers);
            &&& o.st.ifs.len() == 0
            &&& eval_lines(d, st, used, a + b, answers) == eval_lines(d, o.st, o.used, b, answers)
        }),
    decreases a.len(),
{
    if a.len() == 0 {
        assert(a + b =~= b);
    } else {
        let o = eval_line(d, st, used, a[0], answers);
        assert((a + b)[0] == a[0]);
        assert((a + b).drop_first() =~= a.drop_first() + b);
        evaluation_goes_on(d, o.st, later(used, o.used), a.drop_first(), b, answers);
    }
}

/// A conditional that is still open at the end of the lines is an error.
pub proof fn conditionals_are_closed(
    d: DirsText,
    st: LineState,
    used: nat,
    lines: Seq<(LineText, usize)>,
    answers: Seq<AnswerText>,
)
    ensures
        eval_lines(d, st, used, lines, answers).outcome is Done ==> eval_lines(
            d,
            st,
            used,
            lines,
            answers,
        ).st.ifs.len() == 0,
        st.ifs.len() > 0 && lines.len() == 0 ==> eval_lines(
            d,
            st,
            used,
            lines,
            answers,
        ).outcome is Failed,
    decreases lines.len(),
{
    if lines.len() > 0 {
        let o = eval_line(d, st, used, lines[0], answers);
        if o.outcome is Done {
            conditionals_are_closed(d, o.st, later(used, o.used), lines.drop_first(), answers);
        }
    }
}

/// An included file is asked for by its path from the directory of the line. Where
/// there is none, nothing changes; where it cannot be read, that is an error.
/// Otherwise its lines are evaluated in its own directory, with the variables and
/// macros of the line: what they set holds after it, `TUP_CWD` stays what it was,
/// and their rules follow those that are there.
pub proof fn included_files_take_part(
    d: DirsText,
    st: LineState,
    used: nat,
    path: Seq<char>,
    n: usize,
    answers: Seq<AnswerText>,
)
    requires
        forall|i: int| 0 <= i < st.ifs.len() ==> #[trigger] st.ifs[i],
        d.base is Some,
    ensures
        ({
            let o = eval_line(d, st, used, (LineText::Include(path), n), answers);
            let file = path_join(d.base->0, st.scope.vars.expand(path));
            &&& used >= answers.len() ==> o.outcome == Outcome::Ask(RequestText::Read(file))
            &&& used < answers.len() && answers[used as int] is Absent ==> o.outcome is Done && o.st
                == st
            &&& used < answers.len() && answers[used as int] is Failed ==> o.outcome is Failed
            &&& used < answers.len() && o.outcome is Done ==> {
                &&& o.st.ifs == st.ifs
                &&& st.rules.is_prefix_of(o.st.rules)
                &&& st.scope.gitignore ==> o.st.scope.gitignore
                &&& st.scope.vars.vars.dom().contains("TUP_CWD"@) ==> {
                    &&& o.st.scope.vars.vars.dom().contains("TUP_CWD"@)
                    &&& o.st.scope.vars.vars["TUP_CWD"@] == st.scope.vars.vars["TUP_CWD"@]
                }
            }
            &&& (used < answers.len() && o.outcome is Done) ==> (answers[used as int] matches AnswerText::Text(
                content,
            ) ==> (parsed_content(content, file) matches Ok(lines) ==> {
                let inner = DirsText { base: file_dir(d, file), ..d };
                let scope = ScopeText { gitignore: false, ..st.scope };
                let begin = LineState {
                    scope: enter(inner, scope),
                    ifs: Seq::empty(),
                    rules: Seq::empty(),
                };
                let sub = eval_lines(inner, begin, used + 1, lines, answers);
                &&& sub.outcome is Done
                &&& o.st.rules == st.rules + sub.st.rules
                &&& o.st.scope.bangs == sub.st.scope.bangs
                &&& o.st.scope.gitignore == (st.scope.gitignore || sub.st.scope.gitignore)
                &&& forall|v: Seq<char>| #![trigger o.st.scope.vars.vars[v]]
                    v != "TUP_CWD"@ ==> {
                        &&& o.st.scope.vars.vars.dom().contains(v)
                            == sub.st.scope.vars.vars.dom().contains(v)
                        &&& o.st.scope.vars.vars[v] == sub.st.scope.vars.vars[v]
                    }
            }))
        }),
{
    lemma_line_keeps(d, st, used, (LineText::Include(path), n), answers);
}

/// The directories whose `Tuprules.tup` are read, in two parts: those that stand last
/// in the list are read first, and the others find what they set.
pub proof fn outer_rules_come_first(
    d: DirsText,
    st: LineState,
    used: nat,
    n: usize,
    a: Seq<Seq<char>>,
    b: Seq<Seq<char>>,
    fa: Seq<AnswerText>,
    fb: Seq<AnswerText>,
    answers: Seq<AnswerText>,
)
    requires
        fa.len() == a.len(),
        fb.len() == b.len(),
        eval_rules(d, st, used, n, b, fb, answers).outcome is Done,
    ensures
        ({
            let o = eval_rules(d, st, used, n, b, fb, answers);
            eval_rules(d, st, used, n, a + b, fa + fb, answers) == eval_rules(
                d,
                o.st,
                o.used,
                n,
                a,
                fa,
                answers,
            )
        }),
    decreases b.len(),
{
    if b.len() == 0 {
        assert(a + b =~= a);
        assert(fa + fb =~= fa);
    } else {
        let o = eval_file(
            d,
            st,
            used,
            n,
            path_join(b.last(), "Tuprules.tup"@),
            "failed to read Tuprules.tup: "@,
            fb.last(),
            answers,
        );
        assert((a + b).last() == b.last());
        assert((fa + fb).last() == fb.last());
        assert((a + b).drop_last() =~= a + b.drop_last());
        assert((fa + fb).drop_last() =~= fa + fb.drop_last());
        outer_rules_come_first(
            d,
            o.st,
            later(used, o.used),
            n,
            a,
            b.drop_last(),
            fa,
            fb.drop_last(),
            answers,
        );
    }
}

/// A rule whose command is the name of a macro is the rule of the macro, for each input where
/// the macro says so, with the inputs and outputs of the line where it has some; a macro that
/// is not known is an error.
pub proof fn a_rule_line_can_name_a_macro(st: LineState, r: RuleText, n: usize, name: Seq<char>)
    requires
        forall|i: int| 0 <= i < st.ifs.len() ==> #[trigger] st.ifs[i],
        st.scope.vars.expand(r.command.command) == seq!['!'] + name,
        name.len() > 0,
        name[0] != '!',
    ensures
        ({
            let (after, e) = step(st, LineText::Rule(r), n);
            let inputs = expand_items(st.scope.vars, r.inputs);
            let outputs = expand_items(st.scope.vars, r.outputs);
            let m = st.scope.bangs[name];
            &&& !st.scope.bangs.dom().contains(name) ==> e is Some && after == st
            &&& st.scope.bangs.dom().contains(name) ==> {
                &&& e is None
                &&& after.scope == st.scope && after.ifs == st.ifs
                &&& after.rules.len() == st.rules.len() + 1
                &&& after.rules.drop_last() == st.rules
                &&& after.rules.last().foreach == m.foreach
                &&& after.rules.last().command.command == m.command
                &&& after.rules.last().extra_outputs == m.extra_outputs
                &&& after.rules.last().line_number == r.line_number
                &&& inputs.len() > 0 ==> after.rules.last().inputs == inputs
                &&& inputs.len() == 0 ==> after.rules.last().inputs == match m.input {
                    Some(text) => words(text),
                    None => Seq::empty(),
                }
                &&& outputs.len() > 0 ==> after.rules.last().outputs == outputs
                &&& outputs.len() == 0 ==> after.rules.last().outputs == m.outputs
            }
        }),
{
    let c = seq!['!'] + name;
    assert(c[0] == '!');
    assert(c.drop_first() =~= name);
    assert(trim_start_matches(name, '!') == name);
    assert(bare_name(c) == name);
    let after = step(st, LineText::Rule(r), n).0;
    if st.scope.bangs.dom().contains(name) {
        assert(after.rules.drop_last() =~= st.rules);
    }
}

} // verus!
