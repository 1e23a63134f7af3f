//! Evaluation of a Tupfile.
//!
//! Evaluation is a function of the parsed lines and of the answers to the
//! questions that they raise: the contents of included files and the output of
//! scripts. Where an answer is missing, evaluation stops with the question.
use vstd::prelude::*;

use crate::parser::bang::{bare_name, define_macro, macro_of, macro_rule, BangDb, BangText};
use crate::parser::errors::{ErrorText, ParseError};
use crate::parser::line::{
    line_texts, parse_lines, parsed_content, syntax_error, LineText, ParsedLine, TupfileLine,
};
use crate::parser::rule::{
    copy_opt, lemma_rule_texts_push, opt_text, rule_texts, CommandText, Rule, RuleCommand, RuleText,
};
use crate::parser::vardb::{ParseVarDb, VarTables};
use crate::paths::{
    compute_relative_path, parent, path_join, relative_path, str_parent, str_path_join,
    str_up_chain, up_chain,
};
use crate::text::{
    concat2, concat3, copy_str, same, split_words, str_first_is, str_trim, texts, trim, words,
};

verus! {

/// The greatest depth of nested conditionals.
pub const MAX_IF_DEPTH: usize = 8;

/// A question that evaluation raises.
#[derive(Debug)]
pub enum Request {
    /// The content of a file, if it exists.
    Read(String),
    /// The output of a script, run in a directory.
    Script { dir: String, script: String },
}

/// The answer to a question.
#[derive(Debug)]
pub enum Answer {
    /// There is no such file.
    Absent,
    /// The content of the file, or what the script printed.
    Text(String),
    /// The file could not be read, or the script not be started; the text says
    /// why.
    Failed(String),
    /// The script failed, and printed this error.
    ScriptFailed(String),
}

/// Why evaluation stopped before the end.
#[derive(Debug)]
pub enum Stop {
    Failed(ParseError),
    Ask(Request),
}

#[verifier::ext_equal]
pub enum RequestText {
    Read(Seq<char>),
    Script { dir: Seq<char>, script: Seq<char> },
}

#[verifier::ext_equal]
pub enum AnswerText {
    Absent,
    Text(Seq<char>),
    Failed(Seq<char>),
    ScriptFailed(Seq<char>),
}

impl View for Request {
    type V = RequestText;

    open spec fn view(&self) -> RequestText {
        match *self {
            Request::Read(p) => RequestText::Read(p@),
            Request::Script { dir, script } => RequestText::Script { dir: dir@, script: script@ },
        }
    }
}

impl View for Answer {
    type V = AnswerText;

    open spec fn view(&self) -> AnswerText {
        match *self {
            Answer::Absent => AnswerText::Absent,
            Answer::Text(t) => AnswerText::Text(t@),
            Answer::Failed(m) => AnswerText::Failed(m@),
            Answer::ScriptFailed(m) => AnswerText::ScriptFailed(m@),
        }
    }
}

pub open spec fn answer_texts(v: Seq<Answer>) -> Seq<AnswerText> {
    Seq::new(v.len(), |i: int| v[i]@)
}

/// How a part of an evaluation ended.
#[verifier::ext_equal]
pub enum Outcome {
    Done,
    Failed(ErrorText),
    Ask(RequestText),
}

/// The variables and macros that lines read and change, and whether an ignore
/// file was asked for.
#[verifier::ext_equal]
pub struct ScopeText {
    pub vars: VarTables,
    pub bangs: Map<Seq<char>, BangText>,
    pub gitignore: bool,
}

/// What evaluation has come to before a line: the scope, the open conditionals
/// (whether the current branch of each is the one that its condition picks), and
/// the rules found.
#[verifier::ext_equal]
pub struct LineState {
    pub scope: ScopeText,
    pub ifs: Seq<bool>,
    pub rules: Seq<RuleText>,
}

/// What a part of an evaluation came to, and how many answers are used up.
#[verifier::ext_equal]
pub struct EvalOut {
    pub st: LineState,
    pub used: nat,
    pub outcome: Outcome,
}

/// The directories that an evaluation refers to: that of the file, the root of
/// the project, and that of the Tupfile that evaluation began with.
#[verifier::ext_equal]
pub struct DirsText {
    pub base: Option<Seq<char>>,
    pub root: Option<Seq<char>>,
    pub origin: Option<Seq<char>>,
}

// ------------------------------------------------ lines that ask nothing

/// Whether lines are active: whether every conditional around them is in the
/// branch that its condition picks.
pub open spec fn active(ifs: Seq<bool>) -> bool {
    forall|i: int| 0 <= i < ifs.len() ==> #[trigger] ifs[i]
}

pub open spec fn local_error(line: usize, message: Seq<char>) -> ErrorText {
    syntax_error(Seq::empty(), line, message)
}

/// The words of the items after expansion of their variables.
pub open spec fn expand_items(vars: VarTables, items: Seq<Seq<char>>) -> Seq<Seq<char>>
    decreases items.len(),
{
    if items.len() == 0 {
        Seq::empty()
    } else {
        expand_items(vars, items.drop_last()) + words(vars.expand(items.last()))
    }
}

/// A rule after expansion of its variables.
pub open spec fn expand_rule_text(vars: VarTables, r: RuleText) -> RuleText {
    RuleText {
        foreach: r.foreach,
        inputs: expand_items(vars, r.inputs),
        order_only_inputs: expand_items(vars, r.order_only_inputs),
        command: CommandText {
            display: match r.command.display {
                Some(d) => Some(vars.expand(d)),
                None => None,
            },
            flags: r.command.flags,
            command: vars.expand(r.command.command),
        },
        outputs: expand_items(vars, r.outputs),
        extra_outputs: expand_items(vars, r.extra_outputs),
        line_number: r.line_number,
        had_inputs: r.had_inputs,
        vars_snapshot: r.vars_snapshot,
        bin: r.bin,
    }
}

/// The rule that a rule line stands for: itself after expansion, or what the
/// macro that is its command makes of it.
pub open spec fn resolved_rule(scope: ScopeText, r: RuleText) -> Result<RuleText, ErrorText> {
    let e = expand_rule_text(scope.vars, r);
    let c = e.command.command;
    if c.len() > 0 && c[0] == '!' {
        match macro_rule(scope.bangs, c, e.inputs, e.outputs, false, e.line_number) {
            Ok(x) => Ok(x),
            Err(m) => Err(local_error(r.line_number, m)),
        }
    } else {
        Ok(e)
    }
}

/// The state after a line that is active and asks nothing, and the error that
/// it raises.
pub open spec fn act(st: LineState, l: LineText, n: usize) -> (LineState, Option<ErrorText>) {
    let vars = st.scope.vars;
    match l {
        LineText::VarAssign { name, value } => (
            LineState {
                scope: ScopeText {
                    vars: vars.set(vars.expand(name), vars.expand(value)),
                    ..st.scope
                },
                ..st
            },
            None,
        ),
        LineText::VarAppend { name, value } => (
            LineState {
                scope: ScopeText {
                    vars: vars.append(vars.expand(name), vars.expand(value)),
                    ..st.scope
                },
                ..st
            },
            None,
        ),
        LineText::BangDef { name, definition } => (
            LineState {
                scope: ScopeText {
                    bangs: define_macro(st.scope.bangs, name, vars.expand(definition)),
                    ..st.scope
                },
                ..st
            },
            match macro_of(st.scope.bangs, bare_name(trim(name)), vars.expand(definition)) {
                Ok(_) => None,
                Err(m) => Some(local_error(n, m)),
            },
        ),
        LineText::Rule(r) => match resolved_rule(st.scope, r) {
            Ok(x) => (LineState { rules: st.rules.push(x), ..st }, None),
            Err(e) => (st, Some(e)),
        },
        LineText::GitIgnore => (
            LineState { scope: ScopeText { gitignore: true, ..st.scope }, ..st },
            None,
        ),
        LineText::Error(m) => (
            st,
            Some(
                local_error(n, "Found 'error' command parsing Tupfile: "@ + vars.expand(m)),
            ),
        ),
        LineText::Unknown(t) => (
            st,
            Some(local_error(n, "unrecognized line: '"@ + t + "'"@)),
        ),
        _ => (st, None),
    }
}

/// The state after a conditional opens, whose condition holds or not.
pub open spec fn open_if(st: LineState, n: usize, b: bool) -> (LineState, Option<ErrorText>) {
    if st.ifs.len() >= MAX_IF_DEPTH {
        (st, Some(local_error(n, "too many nested if statements"@)))
    } else {
        (LineState { ifs: st.ifs.push(b), ..st }, None)
    }
}

/// The state after a line that asks nothing, and the error that it raises.
pub open spec fn step(st: LineState, l: LineText, n: usize) -> (LineState, Option<ErrorText>) {
    let vars = st.scope.vars;
    match l {
        LineText::Ifdef(v) => open_if(st, n, vars.get(v) is Some),
        LineText::Ifndef(v) => open_if(st, n, vars.get(v) is None),
        LineText::Ifeq(a, b) => open_if(st, n, vars.expand(a) == vars.expand(b)),
        LineText::Ifneq(a, b) => open_if(st, n, vars.expand(a) != vars.expand(b)),
        LineText::Else => if st.ifs.len() == 0 {
            (st, Some(local_error(n, "else statement outside of an if block"@)))
        } else {
            (LineState { ifs: st.ifs.drop_last().push(!st.ifs.last()), ..st }, None)
        },
        LineText::Endif => if st.ifs.len() == 0 {
            (st, Some(local_error(n, "endif statement outside of an if block"@)))
        } else {
            (LineState { ifs: st.ifs.drop_last(), ..st }, None)
        },
        _ => if active(st.ifs) {
            act(st, l, n)
        } else {
            (st, None)
        },
    }
}

// ------------------------------------------------ lines that ask something

pub open spec fn outcome_of(e: Option<ErrorText>) -> Outcome {
    match e {
        Some(e) => Outcome::Failed(e),
        None => Outcome::Done,
    }
}

/// The scope in which a file is evaluated: `TUP_CWD` is the way from the first
/// Tupfile's directory to that of the file.
pub open spec fn enter(d: DirsText, scope: ScopeText) -> ScopeText {
    match (d.base, d.origin) {
        (Some(b), Some(o)) => ScopeText {
            vars: scope.vars.set("TUP_CWD"@, relative_path(o, b)),
            ..scope
        },
        _ => scope,
    }
}

/// The scope after an included file: that file's, with `TUP_CWD` as it was
/// before.
pub open spec fn merge_included(scope: ScopeText, sub: ScopeText) -> ScopeText {
    ScopeText {
        vars: match scope.vars.get("TUP_CWD"@) {
            Some(c) => sub.vars.set("TUP_CWD"@, c),
            None => sub.vars,
        },
        bangs: sub.bangs,
        gitignore: scope.gitignore || sub.gitignore,
    }
}

/// The scope after a script's output.
pub open spec fn merge_script(scope: ScopeText, sub: ScopeText) -> ScopeText {
    ScopeText {
        vars: sub.vars,
        bangs: sub.bangs,
        gitignore: scope.gitignore || sub.gitignore,
    }
}

/// The greater of two counts.
pub open spec fn later(a: nat, b: nat) -> nat {
    if a <= b {
        b
    } else {
        a
    }
}

/// The number of answers that are left.
pub open spec fn remaining(answers: Seq<AnswerText>, used: nat) -> nat {
    if used <= answers.len() {
        (answers.len() - used) as nat
    } else {
        0
    }
}

/// Whether a line asks something in a state: whether it is active, names a
/// file or a script, and the directories that it refers to are known.
pub open spec fn asks(d: DirsText, st: LineState, l: LineText) -> bool {
    &&& active(st.ifs)
    &&& d.base is Some
    &&& match l {
        LineText::Include(_) => true,
        LineText::Run(_) => true,
        LineText::IncludeRules => d.root is Some,
        _ => false,
    }
}

/// The directory of an included file.
pub open spec fn file_dir(d: DirsText, path: Seq<char>) -> Option<Seq<char>> {
    match parent(path) {
        Some(p) => Some(p),
        None => d.base,
    }
}

/// The evaluation of lines, one after the other.
pub open spec fn eval_lines(
    d: DirsText,
    st: LineState,
    used: nat,
    lines: Seq<(LineText, usize)>,
    answers: Seq<AnswerText>,
) -> EvalOut
    decreases remaining(answers, used), 0nat, lines.len() + 1,
{
    if lines.len() == 0 {
        EvalOut {
            st,
            used,
            outcome: if st.ifs.len() != 0 {
                Outcome::Failed(local_error(0, "missing endif before EOF"@))
            } else {
                Outcome::Done
            },
        }
    } else {
        let o = eval_line(d, st, used, lines[0], answers);
        if o.outcome is Done {
            eval_lines(d, o.st, later(used, o.used), lines.drop_first(), answers)
        } else {
            o
        }
    }
}

/// The evaluation of one line.
pub open spec fn eval_line(
    d: DirsText,
    st: LineState,
    used: nat,
    line: (LineText, usize),
    answers: Seq<AnswerText>,
) -> EvalOut
    decreases remaining(answers, used), 0nat, 0nat,
{
    let (l, n) = line;
    if !asks(d, st, l) {
        let (st2, e) = step(st, l, n);
        EvalOut { st: st2, used, outcome: outcome_of(e) }
    } else {
        match l {
            LineText::Include(p) => {
                let path = path_join(d.base->0, st.scope.vars.expand(p));
                if used >= answers.len() {
                    EvalOut { st, used, outcome: Outcome::Ask(RequestText::Read(path)) }
                } else {
                    eval_file(
                        d,
                        st,
                        used + 1,
                        n,
                        path,
                        "failed to read include file: "@,
                        answers[used as int],
                        answers,
                    )
                }
            },
            LineText::IncludeRules => {
                let chain = up_chain(d.base->0, d.root->0);
                if used + chain.len() > answers.len() || chain.len() == 0 {
                    let k = answers.len() - used;
                    EvalOut {
                        st,
                        used,
                        outcome: Outcome::Ask(
                            RequestText::Read(path_join(chain[k], "Tuprules.tup"@)),
                        ),
                    }
                } else {
                    eval_rules(
                        d,
                        st,
                        used + chain.len(),
                        n,
                        chain,
                        answers.subrange(used as int, used + chain.len() as int),
                        answers,
                    )
                }
            },
            LineText::Run(s) => {
                let script = st.scope.vars.expand(s);
                if used >= answers.len() {
                    EvalOut {
                        st,
                        used,
                        outcome: Outcome::Ask(
                            RequestText::Script {
                                dir: d.base->0,
                                script: path_join(d.base->0, script),
                            },
                        ),
                    }
                } else {
                    eval_script(d, st, used + 1, n, script, answers[used as int], answers)
                }
            },
            _ => EvalOut { st, used, outcome: Outcome::Done },
        }
    }
}

/// The evaluation of an included file, whose content is the answer.
pub open spec fn eval_file(
    d: DirsText,
    st: LineState,
    used: nat,
    n: usize,
    path: Seq<char>,
    complaint: Seq<char>,
    answer: AnswerText,
    answers: Seq<AnswerText>,
) -> EvalOut
    decreases remaining(answers, used), 1nat, 0nat,
{
    match answer {
        AnswerText::Text(content) => match parsed_content(content, path) {
            Err(e) => EvalOut { st, used, outcome: Outcome::Failed(e) },
            Ok(lines) => {
                let sub_d = DirsText { base: file_dir(d, path), ..d };
                let o = eval_lines(
                    sub_d,
                    LineState {
                        scope: enter(sub_d, ScopeText { gitignore: false, ..st.scope }),
                        ifs: Seq::empty(),
                        rules: Seq::empty(),
                    },
                    used,
                    lines,
                    answers,
                );
                if o.outcome is Done {
                    EvalOut {
                        st: LineState {
                            scope: merge_included(st.scope, o.st.scope),
                            ifs: st.ifs,
                            rules: st.rules + o.st.rules,
                        },
                        used: later(used, o.used),
                        outcome: Outcome::Done,
                    }
                } else {
                    EvalOut { st, used: later(used, o.used), outcome: o.outcome }
                }
            },
        },
        AnswerText::Failed(m) => EvalOut {
            st,
            used,
            outcome: Outcome::Failed(syntax_error(path, n, complaint + m)),
        },
        _ => EvalOut { st, used, outcome: Outcome::Done },
    }
}

/// The evaluation of the `Tuprules.tup` files of a chain of directories, the
/// last one first.
pub open spec fn eval_rules(
    d: DirsText,
    st: LineState,
    used: nat,
    n: usize,
    chain: Seq<Seq<char>>,
    found: Seq<AnswerText>,
    answers: Seq<AnswerText>,
) -> EvalOut
    decreases remaining(answers, used), 2nat, chain.len(),
{
    if chain.len() == 0 {
        EvalOut { st, used, outcome: Outcome::Done }
    } else {
        let o = eval_file(
            d,
            st,
            used,
            n,
            path_join(chain.last(), "Tuprules.tup"@),
            "failed to read Tuprules.tup: "@,
            found.last(),
            answers,
        );
        if o.outcome is Done {
            eval_rules(
                d,
                o.st,
                later(used, o.used),
                n,
                chain.drop_last(),
                found.drop_last(),
                answers,
            )
        } else {
            o
        }
    }
}

/// The evaluation of what a script printed.
pub open spec fn eval_script(
    d: DirsText,
    st: LineState,
    used: nat,
    n: usize,
    script: Seq<char>,
    answer: AnswerText,
    answers: Seq<AnswerText>,
) -> EvalOut
    decreases remaining(answers, used), 1nat, 0nat,
{
    match answer {
        AnswerText::Text(content) => if content.len() == 0 {
            EvalOut { st, used, outcome: Outcome::Done }
        } else {
            match parsed_content(content, "run:"@ + script) {
                Err(e) => EvalOut { st, used, outcome: Outcome::Failed(e) },
                Ok(lines) => {
                    let o = eval_lines(
                        d,
                        LineState {
                            scope: enter(d, st.scope),
                            ifs: Seq::empty(),
                            rules: Seq::empty(),
                        },
                        used,
                        lines,
                        answers,
                    );
                    if o.outcome is Done {
                        EvalOut {
                            st: LineState {
                                scope: merge_script(st.scope, o.st.scope),
                                ifs: st.ifs,
                                rules: st.rules + o.st.rules,
                            },
                            used: later(used, o.used),
                            outcome: Outcome::Done,
                        }
                    } else {
                        EvalOut { st, used: later(used, o.used), outcome: o.outcome }
                    }
                },
            }
        },
        AnswerText::Failed(m) => EvalOut {
            st,
            used,
            outcome: Outcome::Failed(
                local_error(n, "failed to run script '"@ + script + "': "@ + m),
            ),
        },
        AnswerText::ScriptFailed(m) => EvalOut {
            st,
            used,
            outcome: Outcome::Failed(
                local_error(n, "run script '"@ + script + "' failed: "@ + trim(m)),
            ),
        },
        AnswerText::Absent => EvalOut { st, used, outcome: Outcome::Done },
    }
}

/// The evaluation of a file from its beginning.
pub open spec fn evaluation(
    d: DirsText,
    scope: ScopeText,
    lines: Seq<(LineText, usize)>,
    answers: Seq<AnswerText>,
) -> EvalOut {
    eval_lines(
        d,
        LineState { scope: enter(d, scope), ifs: Seq::empty(), rules: Seq::empty() },
        0,
        lines,
        answers,
    )
}

/// Without a directory, evaluation asks nothing, and answers play no part.
pub proof fn no_directory_no_questions(
    d: DirsText,
    st: LineState,
    used: nat,
    lines: Seq<(LineText, usize)>,
    answers: Seq<AnswerText>,
)
    requires
        d.base is None,
    ensures
        !(eval_lines(d, st, used, lines, answers).outcome is Ask),
        eval_lines(d, st, used, lines, answers).used == used,
    decreases lines.len(),
{
    if lines.len() > 0 {
        let o = eval_line(d, st, used, lines[0], answers);
        if o.outcome is Done {
            no_directory_no_questions(d, o.st, later(used, o.used), lines.drop_first(), answers);
        }
    }
}

/// Where one of the conditionals around it is in the branch that its condition does
/// not pick, a line that is no conditional changes nothing and raises no error.
pub proof fn inactive_lines_do_nothing(st: LineState, l: LineText, n: usize)
    requires
        exists|i: int| 0 <= i < st.ifs.len() && !#[trigger] st.ifs[i],
        !(l is Ifdef || l is Ifndef || l is Ifeq || l is Ifneq || l is Else || l is Endif),
    ensures
        step(st, l, n) == (st, None::<ErrorText>),
{
}

/// A conditional is active where what is around it is and its condition holds, its
/// `else` where what is around it is and its condition does not hold. `else` twice
/// leads back to the same branch, and `endif` takes back what opened the
/// conditional.
pub proof fn conditionals_nest(st: LineState, n: usize, b: bool)
    requires
        st.ifs.len() < MAX_IF_DEPTH,
    ensures
        ({
            let opened = open_if(st, n, b).0;
            let once = step(opened, LineText::Else, n).0;
            &&& open_if(st, n, b).1 is None
            &&& active(opened.ifs) == (active(st.ifs) && b)
            &&& active(once.ifs) == (active(st.ifs) && !b)
            &&& step(once, LineText::Else, n) == (opened, None::<ErrorText>)
            &&& step(opened, LineText::Endif, n) == (st, None::<ErrorText>)
            &&& step(once, LineText::Endif, n) == (st, None::<ErrorText>)
        }),
{
    let opened = open_if(st, n, b).0;
    let once = step(opened, LineText::Else, n).0;
    assert(st.ifs.push(b).drop_last() =~= st.ifs);
    assert(st.ifs.push(!b).drop_last() =~= st.ifs);
    assert(once.ifs =~= st.ifs.push(!b));
    assert(step(once, LineText::Else, n).0.ifs =~= opened.ifs);
    lemma_active_push(st.ifs, b);
    lemma_active_push(st.ifs, !b);
}

proof fn lemma_active_push(ifs: Seq<bool>, b: bool)
    ensures
        active(ifs.push(b)) == (active(ifs) && b),
{
    let more = ifs.push(b);
    if active(more) {
        assert(more[ifs.len() as int]);
        assert forall|i: int| 0 <= i < ifs.len() implies #[trigger] ifs[i] by {
            assert(more[i]);
        }
    }
}

// ------------------------------------------------ running it

/// The directories of an evaluation.
struct Dirs {
    base: Option<String>,
    root: Option<String>,
    origin: Option<String>,
}

impl View for Dirs {
    type V = DirsText;

    closed spec fn view(&self) -> DirsText {
        DirsText {
            base: opt_text(self.base),
            root: opt_text(self.root),
            origin: opt_text(self.origin),
        }
    }
}

/// How a part of an evaluation ended.
enum Halt {
    Done,
    Failed(ParseError),
    Ask(Request),
}

impl View for Halt {
    type V = Outcome;

    closed spec fn view(&self) -> Outcome {
        match *self {
            Halt::Done => Outcome::Done,
            Halt::Failed(e) => Outcome::Failed(e@),
            Halt::Ask(q) => Outcome::Ask(q@),
        }
    }
}

/// The variables and macros in force.
#[derive(Debug)]
struct Scope {
    vars: ParseVarDb,
    bangs: BangDb,
    gitignore_requested: bool,
}

impl View for Scope {
    type V = ScopeText;

    closed spec fn view(&self) -> ScopeText {
        ScopeText { vars: self.vars@, bangs: self.bangs@, gitignore: self.gitignore_requested }
    }
}

fn local_syntax(line: usize, message: String) -> (r: ParseError)
    ensures
        r@ == local_error(line, message@),
{
    ParseError::Syntax { file: String::new(), line, message }
}

/// Expands the variables of a list of items, and splits the results into words.
pub fn expand_and_split(vars: &ParseVarDb, items: &[String]) -> (r: Vec<String>)
    ensures
        texts(r@) == expand_items(vars@, texts(items@)),
{
    let mut out: Vec<String> = Vec::new();
    let ghost all = texts(items@);
    let mut i: usize = 0;
    assert(texts(out@) =~= Seq::empty());
    while i < items.len()
        invariant
            i <= items@.len(),
            all == texts(items@),
            texts(out@) == expand_items(vars@, all.take(i as int)),
        decreases items.len() - i,
    {
        proof {
            assert(all.take(i + 1).drop_last() =~= all.take(i as int));
            assert(all.take(i + 1).last() == items@[i as int]@);
        }
        let expanded = vars.expand(items[i].as_str());
        let mut found = split_words(expanded.as_str());
        let ghost f = found@;
        let ghost o = out@;
        out.append(&mut found);
        assert(texts(out@) =~= texts(o) + texts(f));
        i += 1;
    }
    assert(all.take(all.len() as int) =~= all);
    out
}

fn expand_vars(vars: &ParseVarDb, rule: &Rule) -> (r: Rule)
    ensures
        r@ == expand_rule_text(vars@, rule@),
{
    let display = match &rule.command.display {
        Some(d) => Some(vars.expand(d.as_str())),
        None => None,
    };
    Rule {
        foreach: rule.foreach,
        inputs: expand_and_split(vars, rule.inputs.as_slice()),
        order_only_inputs: expand_and_split(vars, rule.order_only_inputs.as_slice()),
        command: RuleCommand {
            display,
            flags: copy_opt(&rule.command.flags),
            command: vars.expand(rule.command.command.as_str()),
        },
        outputs: expand_and_split(vars, rule.outputs.as_slice()),
        extra_outputs: expand_and_split(vars, rule.extra_outputs.as_slice()),
        line_number: rule.line_number,
        had_inputs: rule.had_inputs,
        vars_snapshot: match &rule.vars_snapshot {
            Some(m) => Some(m.copy()),
            None => None,
        },
        bin: copy_opt(&rule.bin),
    }
}

spec fn line_state(scope: Scope, ifs: Seq<bool>, rules: Seq<Rule>) -> LineState {
    LineState { scope: scope@, ifs, rules: rule_texts(rules) }
}

spec fn error_of(r: Result<(), ParseError>) -> Option<ErrorText> {
    match r {
        Ok(()) => None,
        Err(e) => Some(e@),
    }
}

fn open_branch(ifs: &mut Vec<bool>, n: usize, b: bool) -> (r: Result<(), ParseError>)
    ensures
        forall|st: LineState| #[trigger]
            open_if(st, n, b) == (LineState { ifs: final(ifs)@, ..st }, error_of(r)) || st.ifs
                != old(ifs)@,
{
    if ifs.len() >= MAX_IF_DEPTH {
        return Err(local_syntax(n, copy_str("too many nested if statements")));
    }
    ifs.push(b);
    Ok(())
}

fn is_active(ifs: &Vec<bool>) -> (r: bool)
    ensures
        r == active(ifs@),
{
    let mut i: usize = 0;
    while i < ifs.len()
        invariant
            i <= ifs.len(),
            forall|j: int| 0 <= j < i ==> #[trigger] ifs@[j],
        decreases ifs.len() - i,
    {
        if !ifs[i] {
            assert(!ifs@[i as int]);
            return false;
        }
        i += 1;
    }
    true
}

impl Scope {
    fn copy(&self, gitignore_requested: bool) -> (r: Scope)
        ensures
            r@ == (ScopeText { gitignore: gitignore_requested, ..self@ }),
    {
        Scope { vars: self.vars.clone(), bangs: self.bangs.clone(), gitignore_requested }
    }

    fn resolve_rule(&self, rule: &Rule) -> (r: Result<Rule, ParseError>)
        ensures
            match r {
                Ok(x) => resolved_rule(self@, rule@) == Ok::<RuleText, ErrorText>(x@),
                Err(e) => resolved_rule(self@, rule@) == Err::<RuleText, ErrorText>(e@),
            },
    {
        let expanded = expand_vars(&self.vars, rule);
        if str_first_is(expanded.command.command.as_str(), '!') {
            match self.bangs.expand_rule(
                expanded.command.command.as_str(),
                expanded.inputs.as_slice(),
                expanded.outputs.as_slice(),
                false,
                expanded.line_number,
            ) {
                Ok(x) => Ok(x),
                Err(m) => Err(local_syntax(rule.line_number, m)),
            }
        } else {
            Ok(expanded)
        }
    }

    fn act(&mut self, line: &ParsedLine, rules: &mut Vec<Rule>) -> (r: Result<(), ParseError>)
        ensures
            forall|ifs: Seq<bool>|
                #![trigger line_state(*old(self), ifs, old(rules)@)]
                act(line_state(*old(self), ifs, old(rules)@), line.content@, line.line_number) == (
                    line_state(*final(self), ifs, final(rules)@),
                    error_of(r),
                ),
    {
        match &line.content {
            TupfileLine::VarAssign { name, value } => {
                let n = self.vars.expand(name.as_str());
                let v = self.vars.expand(value.as_str());
                self.vars.set(n.as_str(), v.as_str());
                Ok(())
            },
            TupfileLine::VarAppend { name, value } => {
                let n = self.vars.expand(name.as_str());
                let v = self.vars.expand(value.as_str());
                self.vars.append(n.as_str(), v.as_str());
                Ok(())
            },
            TupfileLine::BangDef { name, definition } => {
                let def = self.vars.expand(definition.as_str());
                match self.bangs.define(name.as_str(), def.as_str()) {
                    Ok(()) => Ok(()),
                    Err(m) => Err(local_syntax(line.line_number, m)),
                }
            },
            TupfileLine::Rule(rule) => {
                match self.resolve_rule(rule) {
                    Ok(x) => {
                        proof {
                            lemma_rule_texts_push(rules@, x);
                        }
                        rules.push(x);
                        Ok(())
                    },
                    Err(e) => Err(e),
                }
            },
            TupfileLine::GitIgnore => {
                self.gitignore_requested = true;
                Ok(())
            },
            TupfileLine::Error(m) => {
                let expanded = self.vars.expand(m.as_str());
                Err(
                    local_syntax(
                        line.line_number,
                        concat2("Found 'error' command parsing Tupfile: ", expanded.as_str()),
                    ),
                )
            },
            TupfileLine::Unknown(t) => {
                Err(local_syntax(line.line_number, concat3("unrecognized line: '", t.as_str(), "'")))
            },
            _ => Ok(()),
        }
    }

    fn step(
        &mut self,
        line: &ParsedLine,
        ifs: &mut Vec<bool>,
        rules: &mut Vec<Rule>,
    ) -> (r: Result<(), ParseError>)
        ensures
            step(
                line_state(*old(self), old(ifs)@, old(rules)@),
                line.content@,
                line.line_number,
            ) == (line_state(*final(self), final(ifs)@, final(rules)@), error_of(r)),
    {
        let n = line.line_number;
        let live = is_active(ifs);
        let ghost st = line_state(*self, ifs@, rules@);
        match &line.content {
            TupfileLine::Ifdef(v) => {
                let b = self.vars.get(v.as_str()).is_some();
                assert(st.ifs == ifs@);
                let ghost o = open_if(st, n, b);
                open_branch(ifs, n, b)
            },
            TupfileLine::Ifndef(v) => {
                let b = self.vars.get(v.as_str()).is_none();
                let ghost o = open_if(st, n, b);
                open_branch(ifs, n, b)
            },
            TupfileLine::Ifeq(a, b) => {
                let x = self.vars.expand(a.as_str());
                let y = self.vars.expand(b.as_str());
                let b = same(x.as_str(), y.as_str());
                let ghost o = open_if(st, n, b);
                open_branch(ifs, n, b)
            },
            TupfileLine::Ifneq(a, b) => {
                let x = self.vars.expand(a.as_str());
                let y = self.vars.expand(b.as_str());
                let b = !same(x.as_str(), y.as_str());
                let ghost o = open_if(st, n, b);
                open_branch(ifs, n, b)
            },
            TupfileLine::Else => {
                match ifs.pop() {
                    Some(b) => {
                        ifs.push(!b);
                        Ok(())
                    },
                    None => Err(
                        local_syntax(n, copy_str("else statement outside of an if block")),
                    ),
                }
            },
            TupfileLine::Endif => {
                match ifs.pop() {
                    Some(_) => Ok(()),
                    None => Err(
                        local_syntax(n, copy_str("endif statement outside of an if block")),
                    ),
                }
            },
            _ => {
                if live {
                    let ghost s0 = line_state(*self, ifs@, rules@);
                    self.act(line, rules)
                } else {
                    Ok(())
                }
            },
        }
    }

    fn enter(&mut self, d: &Dirs)
        ensures
            final(self)@ == enter(d@, old(self)@),
    {
        if let Some(b) = &d.base {
            if let Some(o) = &d.origin {
                let cwd = compute_relative_path(o.as_str(), b.as_str());
                self.vars.set("TUP_CWD", cwd.as_str());
            }
        }
    }

    fn eval_lines(
        &mut self,
        d: &Dirs,
        lines: &Vec<ParsedLine>,
        answers: &[Answer],
        used: usize,
        rules: &mut Vec<Rule>,
    ) -> (r: (usize, Halt))
        requires
            used <= answers@.len(),
        ensures
            used <= r.0 <= answers@.len(),
            ({
                let o = eval_lines(
                    d@,
                    line_state(*old(self), Seq::empty(), old(rules)@),
                    used as nat,
                    line_texts(lines@),
                    answer_texts(answers@),
                );
                &&& o.st.scope == final(self)@
                &&& o.st.rules == rule_texts(final(rules)@)
                &&& o.used == r.0
                &&& o.outcome == r.1@
            }),
        decreases answers@.len() - used, 0int, lines@.len() + 1,
    {
        let mut ifs: Vec<bool> = Vec::new();
        let mut at: usize = used;
        let mut i: usize = 0;
        let ghost all = line_texts(lines@);
        let ghost ans = answer_texts(answers@);
        let ghost start = line_state(*self, Seq::empty(), rules@);
        let ghost whole = eval_lines(d@, start, used as nat, all, ans);
        proof {
            assert(all.skip(0) =~= all);
            assert(ifs@ =~= Seq::empty());
        }
        while i < lines.len()
            invariant
                i <= lines@.len(),
                used <= at <= answers@.len(),
                all == line_texts(lines@),
                ans == answer_texts(answers@),
                start == line_state(*old(self), Seq::empty(), old(rules)@),
                whole == eval_lines(d@, start, used as nat, all, ans),
                whole == eval_lines(
                    d@,
                    line_state(*self, ifs@, rules@),
                    at as nat,
                    all.skip(i as int),
                    ans,
                ),
            decreases lines.len() - i,
        {
            proof {
                assert(all.skip(i as int).drop_first() =~= all.skip(i + 1));
                assert(all.skip(i as int)[0] == lines@[i as int]@);
            }
            let (next, halt) = self.eval_line(d, &lines[i], answers, at, &mut ifs, rules);
            at = next;
            match halt {
                Halt::Done => {},
                _ => {
                    return (at, halt);
                },
            }
            i += 1;
        }
        assert(all.skip(i as int).len() == 0);
        if ifs.len() != 0 {
            (at, Halt::Failed(local_syntax(0, copy_str("missing endif before EOF"))))
        } else {
            (at, Halt::Done)
        }
    }

    fn eval_line(
        &mut self,
        d: &Dirs,
        line: &ParsedLine,
        answers: &[Answer],
        used: usize,
        ifs: &mut Vec<bool>,
        rules: &mut Vec<Rule>,
    ) -> (r: (usize, Halt))
        requires
            used <= answers@.len(),
        ensures
            used <= r.0 <= answers@.len(),
            eval_line(
                d@,
                line_state(*old(self), old(ifs)@, old(rules)@),
                used as nat,
                line@,
                answer_texts(answers@),
            ) == (EvalOut {
                st: line_state(*final(self), final(ifs)@, final(rules)@),
                used: r.0 as nat,
                outcome: r.1@,
            }),
        decreases answers@.len() - used, 0int, 0int,
    {
        let ghost st = line_state(*self, ifs@, rules@);
        let ghost ans = answer_texts(answers@);
        if is_active(ifs) {
            if let Some(base) = &d.base {
                match &line.content {
                    TupfileLine::Include(p) => {
                        let expanded = self.vars.expand(p.as_str());
                        let path = str_path_join(base.as_str(), expanded.as_str());
                        if used == answers.len() {
                            return (used, Halt::Ask(Request::Read(path)));
                        }
                        return self.eval_file(
                            d,
                            answers,
                            used + 1,
                            line.line_number,
                            path.as_str(),
                            "failed to read include file: ",
                            &answers[used],
                            Ghost(ifs@),
                            rules,
                        );
                    },
                    TupfileLine::IncludeRules => {
                        if let Some(root) = &d.root {
                            let chain = str_up_chain(base.as_str(), root.as_str());
                            assert(texts(chain@).len() == chain@.len());
                            if answers.len() - used < chain.len() {
                                let k: usize = answers.len() - used;
                                let path = str_path_join(chain[k].as_str(), "Tuprules.tup");
                                return (used, Halt::Ask(Request::Read(path)));
                            }
                            return self.eval_rules(
                                d,
                                answers,
                                used,
                                line.line_number,
                                &chain,
                                Ghost(ifs@),
                                rules,
                            );
                        }
                    },
                    TupfileLine::Run(s) => {
                        let script = self.vars.expand(s.as_str());
                        if used == answers.len() {
                            let path = str_path_join(base.as_str(), script.as_str());
                            return (
                                used,
                                Halt::Ask(Request::Script { dir: base.clone(), script: path }),
                            );
                        }
                        return self.eval_script(
                            d,
                            answers,
                            used + 1,
                            line.line_number,
                            script.as_str(),
                            &answers[used],
                            Ghost(ifs@),
                            rules,
                        );
                    },
                    _ => {},
                }
            }
        }
        assert(!asks(d@, st, line.content@));
        match self.step(line, ifs, rules) {
            Ok(()) => (used, Halt::Done),
            Err(e) => (used, Halt::Failed(e)),
        }
    }

    fn eval_file(
        &mut self,
        d: &Dirs,
        answers: &[Answer],
        used: usize,
        n: usize,
        path: &str,
        complaint: &str,
        answer: &Answer,
        Ghost(ifs): Ghost<Seq<bool>>,
        rules: &mut Vec<Rule>,
    ) -> (r: (usize, Halt))
        requires
            used <= answers@.len(),
        ensures
            used <= r.0 <= answers@.len(),
            eval_file(
                d@,
                line_state(*old(self), ifs, old(rules)@),
                used as nat,
                n,
                path@,
                complaint@,
                answer@,
                answer_texts(answers@),
            ) == (EvalOut {
                st: line_state(*final(self), ifs, final(rules)@),
                used: r.0 as nat,
                outcome: r.1@,
            }),
        decreases answers@.len() - used, 1int, 0int,
    {
        match answer {
            Answer::Text(content) => {
                let lines = match parse_lines(content.as_str(), path) {
                    Ok(lines) => lines,
                    Err(e) => {
                        return (used, Halt::Failed(e));
                    },
                };
                let base = match str_parent(path) {
                    Some(p) => Some(copy_str(p)),
                    None => copy_opt(&d.base),
                };
                let sub_d = Dirs { base, root: copy_opt(&d.root), origin: copy_opt(&d.origin) };
                assert(sub_d@ == DirsText { base: file_dir(d@, path@), ..d@ });
                let mut sub = self.copy(false);
                sub.enter(&sub_d);
                let mut sub_rules: Vec<Rule> = Vec::new();
                assert(rule_texts(sub_rules@) =~= Seq::empty());
                let (next, halt) = sub.eval_lines(&sub_d, &lines, answers, used, &mut sub_rules);
                match halt {
                    Halt::Done => {
                        match self.vars.get("TUP_CWD") {
                            Some(cwd) => {
                                sub.vars.set("TUP_CWD", cwd);
                            },
                            None => {},
                        }
                        self.vars = sub.vars;
                        self.bangs = sub.bangs;
                        self.gitignore_requested = self.gitignore_requested
                            || sub.gitignore_requested;
                        let ghost a = rules@;
                        let ghost b = sub_rules@;
                        rules.append(&mut sub_rules);
                        assert(rule_texts(rules@) =~= rule_texts(a) + rule_texts(b));
                        (next, Halt::Done)
                    },
                    _ => (next, halt),
                }
            },
            Answer::Failed(m) => (
                used,
                Halt::Failed(
                    ParseError::Syntax {
                        file: copy_str(path),
                        line: n,
                        message: concat2(complaint, m.as_str()),
                    },
                ),
            ),
            _ => (used, Halt::Done),
        }
    }

    fn eval_rules(
        &mut self,
        d: &Dirs,
        answers: &[Answer],
        first: usize,
        n: usize,
        chain: &Vec<String>,
        Ghost(ifs): Ghost<Seq<bool>>,
        rules: &mut Vec<Rule>,
    ) -> (r: (usize, Halt))
        requires
            first + chain@.len() <= answers.len(),
            chain@.len() > 0,
        ensures
            first + chain@.len() <= r.0 <= answers@.len(),
            eval_rules(
                d@,
                line_state(*old(self), ifs, old(rules)@),
                (first + chain@.len()) as nat,
                n,
                texts(chain@),
                answer_texts(answers@).subrange(first as int, first + chain@.len()),
                answer_texts(answers@),
            ) == (EvalOut {
                st: line_state(*final(self), ifs, final(rules)@),
                used: r.0 as nat,
                outcome: r.1@,
            }),
        decreases answers@.len() - first - chain@.len(), 2int, 0int,
    {
        let mut k: usize = chain.len();
        let mut at: usize = first + chain.len();
        let ghost ans = answer_texts(answers@);
        let ghost dirs = texts(chain@);
        let ghost found = ans.subrange(first as int, first + chain@.len());
        let ghost whole = eval_rules(
            d@,
            line_state(*self, ifs, rules@),
            at as nat,
            n,
            dirs,
            found,
            ans,
        );
        proof {
            assert(dirs.take(k as int) =~= dirs);
            assert(found.take(k as int) =~= found);
        }
        while k > 0
            invariant
                k <= chain@.len(),
                0 < chain@.len(),
                first + chain@.len() <= at <= answers@.len(),
                ans == answer_texts(answers@),
                dirs == texts(chain@),
                found == ans.subrange(first as int, first + chain@.len()),
                whole == eval_rules(
                    d@,
                    line_state(*old(self), ifs, old(rules)@),
                    (first + chain@.len()) as nat,
                    n,
                    dirs,
                    found,
                    ans,
                ),
                whole == eval_rules(
                    d@,
                    line_state(*self, ifs, rules@),
                    at as nat,
                    n,
                    dirs.take(k as int),
                    found.take(k as int),
                    ans,
                ),
            decreases k,
        {
            proof {
                assert(dirs.take(k as int).drop_last() =~= dirs.take(k - 1));
                assert(found.take(k as int).drop_last() =~= found.take(k - 1));
                assert(dirs.take(k as int).last() == chain@[k - 1]@);
                assert(found.take(k as int).last() == answers@[first + k - 1]@);
            }
            let path = str_path_join(chain[k - 1].as_str(), "Tuprules.tup");
            let (next, halt) = self.eval_file(
                d,
                answers,
                at,
                n,
                path.as_str(),
                "failed to read Tuprules.tup: ",
                &answers[first + (k - 1)],
                Ghost(ifs),
                rules,
            );
            at = next;
            match halt {
                Halt::Done => {},
                _ => {
                    return (at, halt);
                },
            }
            k -= 1;
        }
        (at, Halt::Done)
    }

    fn eval_script(
        &mut self,
        d: &Dirs,
        answers: &[Answer],
        used: usize,
        n: usize,
        script: &str,
        answer: &Answer,
        Ghost(ifs): Ghost<Seq<bool>>,
        rules: &mut Vec<Rule>,
    ) -> (r: (usize, Halt))
        requires
            used <= answers@.len(),
        ensures
            used <= r.0 <= answers@.len(),
            eval_script(
                d@,
                line_state(*old(self), ifs, old(rules)@),
                used as nat,
                n,
                script@,
                answer@,
                answer_texts(answers@),
            ) == (EvalOut {
                st: line_state(*final(self), ifs, final(rules)@),
                used: r.0 as nat,
                outcome: r.1@,
            }),
        decreases answers@.len() - used, 1int, 0int,
    {
        match answer {
            Answer::Text(content) => {
                if content.as_str().is_empty() {
                    return (used, Halt::Done);
                }
                let name = concat2("run:", script);
                let lines = match parse_lines(content.as_str(), name.as_str()) {
                    Ok(lines) => lines,
                    Err(e) => {
                        return (used, Halt::Failed(e));
                    },
                };
                let mut sub = self.copy(self.gitignore_requested);
                sub.enter(d);
                let mut sub_rules: Vec<Rule> = Vec::new();
                assert(rule_texts(sub_rules@) =~= Seq::empty());
                let (next, halt) = sub.eval_lines(d, &lines, answers, used, &mut sub_rules);
                match halt {
                    Halt::Done => {
                        self.vars = sub.vars;
                        self.bangs = sub.bangs;
                        self.gitignore_requested = self.gitignore_requested
                            || sub.gitignore_requested;
                        let ghost a = rules@;
                        let ghost b = sub_rules@;
                        rules.append(&mut sub_rules);
                        assert(rule_texts(rules@) =~= rule_texts(a) + rule_texts(b));
                        (next, Halt::Done)
                    },
                    _ => (next, halt),
                }
            },
            Answer::Failed(m) => {
                let head = concat3("failed to run script '", script, "': ");
                (used, Halt::Failed(local_syntax(n, concat2(head.as_str(), m.as_str()))))
            },
            Answer::ScriptFailed(m) => {
                let head = concat3("run script '", script, "' failed: ");
                (
                    used,
                    Halt::Failed(local_syntax(n, concat2(head.as_str(), str_trim(m.as_str())))),
                )
            },
            Answer::Absent => (used, Halt::Done),
        }
    }
}

/// Reader that parses a Tupfile into lines and evaluates them.
#[derive(Debug)]
pub struct TupfileReader {
    scope: Scope,
    lines: Vec<ParsedLine>,
}

/// A reader as texts.
#[verifier::ext_equal]
pub struct ReaderText {
    pub scope: ScopeText,
    pub lines: Seq<(LineText, usize)>,
}

impl View for TupfileReader {
    type V = ReaderText;

    closed spec fn view(&self) -> ReaderText {
        ReaderText { scope: self.scope@, lines: line_texts(self.lines@) }
    }
}

/// The scope that a reader starts with.
pub open spec fn empty_scope() -> ScopeText {
    ScopeText { vars: VarTables::empty(), bangs: Map::empty(), gitignore: false }
}

/// The text of an optional path.
pub open spec fn opt_str(s: Option<&str>) -> Option<Seq<char>> {
    match s {
        Some(t) => Some(t@),
        None => None,
    }
}

fn own(s: Option<&str>) -> (r: Option<String>)
    ensures
        opt_text(r) == opt_str(s),
{
    match s {
        Some(t) => Some(copy_str(t)),
        None => None,
    }
}

/// The directories that an evaluation starts with. The first Tupfile's
/// directory is the file's own where none is given.
pub open spec fn start_dirs(
    base: Option<Seq<char>>,
    root: Option<Seq<char>>,
    tupfile_dir: Option<Seq<char>>,
) -> DirsText {
    DirsText {
        base,
        root,
        origin: match tupfile_dir {
            Some(t) => Some(t),
            None => base,
        },
    }
}

impl TupfileReader {
    /// Parses a Tupfile from its content.
    pub fn parse(content: &str, filename: &str) -> (r: Result<Self, ParseError>)
        ensures
            match r {
                Ok(reader) => {
                    &&& reader@.scope == empty_scope()
                    &&& parsed_content(content@, filename@) == Ok::<
                        Seq<(LineText, usize)>,
                        ErrorText,
                    >(reader@.lines)
                },
                Err(e) => parsed_content(content@, filename@) == Err::<
                    Seq<(LineText, usize)>,
                    ErrorText,
                >(e@),
            },
    {
        match parse_lines(content, filename) {
            Ok(lines) => Ok(
                TupfileReader {
                    scope: Scope {
                        vars: ParseVarDb::new(),
                        bangs: BangDb::new(),
                        gitignore_requested: false,
                    },
                    lines,
                },
            ),
            Err(e) => Err(e),
        }
    }

    /// The variables.
    pub fn vars(&self) -> (r: &ParseVarDb)
        ensures
            r@ == self@.scope.vars,
    {
        &self.scope.vars
    }

    /// The variables, to be changed.
    pub fn vars_mut(&mut self) -> (r: &mut ParseVarDb)
        ensures
            r@ == old(self)@.scope.vars,
            final(self)@ == (ReaderText {
                scope: ScopeText { vars: final(r)@, ..old(self)@.scope },
                ..old(self)@
            }),
    {
        &mut self.scope.vars
    }

    /// The bang macros.
    pub fn bangs(&self) -> (r: &BangDb)
        ensures
            r@ == self@.scope.bangs,
    {
        &self.scope.bangs
    }

    /// Evaluates all lines: variables, conditionals, macros and rules.
    ///
    /// Gives the rules of the Tupfile. Other files and scripts play no part.
    pub fn evaluate(&mut self) -> (r: Result<Vec<Rule>, ParseError>)
        ensures
            ({
                let o = evaluation(
                    start_dirs(None, None, None),
                    old(self)@.scope,
                    old(self)@.lines,
                    Seq::empty(),
                );
                &&& final(self)@ == (ReaderText { scope: o.st.scope, ..old(self)@ })
                &&& match r {
                    Ok(rules) => o.outcome is Done && rule_texts(rules@) == o.st.rules,
                    Err(e) => o.outcome == Outcome::Failed(e@),
                }
            }),
    {
        let answers: Vec<Answer> = Vec::new();
        proof {
            let d = start_dirs(None, None, None);
            assert(answer_texts(answers@) =~= Seq::empty());
            no_directory_no_questions(
                d,
                LineState {
                    scope: enter(d, self@.scope),
                    ifs: Seq::empty(),
                    rules: Seq::empty(),
                },
                0,
                self@.lines,
                Seq::empty(),
            );
        }
        match self.evaluate_with_dirs(None, None, None, answers.as_slice()) {
            Ok(rules) => Ok(rules),
            Err(Stop::Failed(e)) => Err(e),
            Err(Stop::Ask(_)) => {
                assert(false);
                Err(ParseError::Other(String::new()))
            },
        }
    }

    /// Evaluates all lines of a file in the directory `base_dir`.
    pub fn evaluate_with_dir(&mut self, base_dir: Option<&str>, answers: &[Answer]) -> (r: Result<
        Vec<Rule>,
        Stop,
    >)
        ensures
            evaluated(
                *old(self),
                *final(self),
                r,
                evaluation(
                    start_dirs(opt_str(base_dir), None, None),
                    old(self)@.scope,
                    old(self)@.lines,
                    answer_texts(answers@),
                ),
            ),
    {
        self.evaluate_with_dirs(base_dir, None, None, answers)
    }

    /// Evaluates all lines of a file in the directory `base_dir`.
    ///
    /// `tupfile_dir` is the directory of the Tupfile that evaluation began
    /// with; `TUP_CWD` is the way from there to `base_dir`. `answers` answers
    /// the questions in the order in which they come up. Where one is missing,
    /// the reader is left as it was.
    pub fn evaluate_with_dirs(
        &mut self,
        base_dir: Option<&str>,
        tup_root: Option<&str>,
        tupfile_dir: Option<&str>,
        answers: &[Answer],
    ) -> (r: Result<Vec<Rule>, Stop>)
        ensures
            evaluated(
                *old(self),
                *final(self),
                r,
                evaluation(
                    start_dirs(opt_str(base_dir), opt_str(tup_root), opt_str(tupfile_dir)),
                    old(self)@.scope,
                    old(self)@.lines,
                    answer_texts(answers@),
                ),
            ),
    {
        let origin = match tupfile_dir {
            Some(t) => Some(copy_str(t)),
            None => own(base_dir),
        };
        let d = Dirs { base: own(base_dir), root: own(tup_root), origin };
        assert(d@ == start_dirs(opt_str(base_dir), opt_str(tup_root), opt_str(tupfile_dir)));
        let mut scope = self.scope.copy(self.scope.gitignore_requested);
        scope.enter(&d);
        let mut rules: Vec<Rule> = Vec::new();
        assert(rule_texts(rules@) =~= Seq::empty());
        let (_, halt) = scope.eval_lines(&d, &self.lines, answers, 0, &mut rules);
        match halt {
            Halt::Done => {
                self.scope = scope;
                Ok(rules)
            },
            Halt::Failed(e) => {
                self.scope = scope;
                Err(Stop::Failed(e))
            },
            Halt::Ask(q) => Err(Stop::Ask(q)),
        }
    }

    /// A rule with the variables in all its parts expanded.
    pub fn expand_rule_vars(&self, rule: &Rule) -> (r: Rule)
        ensures
            r@ == expand_rule_text(self@.scope.vars, rule@),
    {
        expand_vars(&self.scope.vars, rule)
    }

    /// All lines with their numbers.
    pub fn parsed_lines(&self) -> (r: Vec<(usize, &TupfileLine)>)
        ensures
            r@.len() == self@.lines.len(),
            forall|i: int|
                0 <= i < r@.len() ==> (#[trigger] r@[i]).1@ == self@.lines[i].0 && r@[i].0
                    == self@.lines[i].1,
    {
        let mut out: Vec<(usize, &TupfileLine)> = Vec::new();
        let mut i: usize = 0;
        while i < self.lines.len()
            invariant
                i <= self.lines@.len(),
                out@.len() == i,
                forall|j: int|
                    0 <= j < i ==> (#[trigger] out@[j]).1@ == self@.lines[j].0 && out@[j].0
                        == self@.lines[j].1,
            decreases self.lines.len() - i,
        {
            let line = &self.lines[i];
            assert(self@.lines[i as int] == line@);
            out.push((line.line_number, &line.content));
            i += 1;
        }
        out
    }

    /// Sets a variable of `tup.config`, for `@(VAR)`.
    pub fn set_config(&mut self, name: &str, value: &str)
        ensures
            final(self)@ == (ReaderText {
                scope: ScopeText {
                    vars: old(self)@.scope.vars.set_config(name@, value@),
                    ..old(self)@.scope
                },
                ..old(self)@
            }),
    {
        self.scope.vars.set_config(name, value);
    }

    /// Whether the `.gitignore` directive was met.
    pub fn gitignore_requested(&self) -> (r: bool)
        ensures
            r == self@.scope.gitignore,
    {
        self.scope.gitignore_requested
    }
}

/// Whether a reader and a result are what an evaluation came to.
pub open spec fn evaluated(
    before: TupfileReader,
    after: TupfileReader,
    r: Result<Vec<Rule>, Stop>,
    o: EvalOut,
) -> bool {
    match r {
        Ok(rules) => {
            &&& o.outcome is Done
            &&& rule_texts(rules@) == o.st.rules
            &&& after@ == (ReaderText { scope: o.st.scope, ..before@ })
        },
        Err(Stop::Failed(e)) => {
            &&& o.outcome == Outcome::Failed(e@)
            &&& after@ == (ReaderText { scope: o.st.scope, ..before@ })
        },
        Err(Stop::Ask(q)) => o.outcome == Outcome::Ask(q@) && after@ == before@,
    }
}

} // verus!
