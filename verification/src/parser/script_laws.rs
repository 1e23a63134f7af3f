//! What holds of scripts, of the files of rules above a directory, and of what a file knows of
//! where it is.
use vstd::prelude::*;

use crate::parser::line::{parsed_content, LineText};
use crate::parser::reader::{
    enter, eval_file, eval_line, eval_lines, eval_rules, later, start_dirs, AnswerText, DirsText,
    LineState, Outcome, RequestText, ScopeText,
};
use crate::path_laws::relative_path_leads_there;
use crate::paths::{
    common_prefix, is_absolute, is_name, normal_components, path_join, up_chain,
};

verus! {

/// A script is asked for by its path from the directory of the line. Where it printed nothing,
/// nothing changes; where it failed or could not be run, that is an error. Otherwise what it
/// printed is evaluated like lines of their own: what they set holds after it, and their rules
/// follow those that are there.
pub proof fn what_a_script_printed_takes_part(
    d: DirsText,
    st: LineState,
    used: nat,
    script: Seq<char>,
    n: usize,
    answers: Seq<AnswerText>,
)
    requires
        forall|i: int| 0 <= i < st.ifs.len() ==> #[trigger] st.ifs[i],
        d.base is Some,
    ensures
        ({
            let o = eval_line(d, st, used, (LineText::Run(script), n), answers);
            let name = st.scope.vars.expand(script);
            &&& used >= answers.len() ==> o.outcome == Outcome::Ask(
                RequestText::Script { dir: d.base->0, script: path_join(d.base->0, name) },
            ) && o.st == st
            &&& used < answers.len() ==> match answers[used as int] {
                AnswerText::Absent => o.outcome is Done && o.st == st,
                AnswerText::Failed(_) => o.outcome is Failed && o.st == st,
                AnswerText::ScriptFailed(_) => o.outcome is Failed && o.st == st,
                AnswerText::Text(content) => {
                    &&& content.len() == 0 ==> o.outcome is Done && o.st == st
                    &&& content.len() > 0 ==> match parsed_content(content, "run:"@ + name) {
                        Err(_) => o.outcome is Failed && o.st == st,
                        Ok(lines) => {
                            let begin = LineState {
                                scope: enter(d, st.scope),
                                ifs: Seq::empty(),
                                rules: Seq::empty(),
                            };
                            let sub = eval_lines(d, begin, used + 1, lines, answers);
                            &&& sub.outcome is Done ==> {
                                &&& o.outcome is Done
                                &&& o.st.ifs == st.ifs
                                &&& o.st.rules == st.rules + sub.st.rules
                                &&& o.st.scope.vars == sub.st.scope.vars
                                &&& o.st.scope.bangs == sub.st.scope.bangs
                                &&& o.st.scope.gitignore == (st.scope.gitignore
                                    || sub.st.scope.gitignore)
                            }
                            &&& !(sub.outcome is Done) ==> o.outcome == sub.outcome && o.st == st
                        },
                    }
                },
            }
        }),
{
}

/// The files of rules above a directory are asked for one by one, beginning with that of the
/// directory itself; they are evaluated when all of them have been answered.
pub proof fn files_of_rules_are_asked_for(
    d: DirsText,
    st: LineState,
    used: nat,
    n: usize,
    answers: Seq<AnswerText>,
)
    requires
        forall|i: int| 0 <= i < st.ifs.len() ==> #[trigger] st.ifs[i],
        d.base is Some,
        d.root is Some,
        used <= answers.len(),
    ensures
        ({
            let o = eval_line(d, st, used, (LineText::IncludeRules, n), answers);
            let chain = up_chain(d.base->0, d.root->0);
            let k = answers.len() - used;
            &&& chain.len() > k ==> o.outcome == Outcome::Ask(
                RequestText::Read(path_join(chain[k], "Tuprules.tup"@)),
            ) && o.st == st
            &&& chain.len() == k && k > 0 ==> o == eval_rules(
                d,
                st,
                answers.len(),
                n,
                chain,
                answers.skip(used as int),
                answers,
            )
        }),
{
    let chain = up_chain(d.base->0, d.root->0);
    if chain.len() + used == answers.len() {
        assert(answers.subrange(used as int, used + chain.len() as int) =~= answers.skip(
            used as int,
        ));
    }
}

/// The file of rules of one directory is read like an included file; one that is not there
/// changes nothing.
pub proof fn a_file_of_rules_is_included(
    d: DirsText,
    st: LineState,
    used: nat,
    n: usize,
    dir: Seq<char>,
    answer: AnswerText,
    answers: Seq<AnswerText>,
)
    ensures
        ({
            let o = eval_rules(d, st, used, n, seq![dir], seq![answer], answers);
            let f = eval_file(
                d,
                st,
                used,
                n,
                path_join(dir, "Tuprules.tup"@),
                "failed to read Tuprules.tup: "@,
                answer,
                answers,
            );
            &&& o.outcome == f.outcome
            &&& o.st == f.st
            &&& answer is Absent ==> o.outcome is Done && o.st == st
            &&& answer is Failed ==> o.outcome is Failed
        }),
        eval_rules(d, st, used, n, Seq::empty(), Seq::empty(), answers).outcome is Done,
        eval_rules(d, st, used, n, Seq::empty(), Seq::empty(), answers).st == st,
{
    let one = seq![dir];
    assert(one.drop_last() =~= Seq::<Seq<char>>::empty());
    assert(seq![answer].drop_last() =~= Seq::<AnswerText>::empty());
    assert(one.last() == dir);
    assert(seq![answer].last() == answer);
    let f = eval_file(
        d,
        st,
        used,
        n,
        path_join(dir, "Tuprules.tup"@),
        "failed to read Tuprules.tup: "@,
        answer,
        answers,
    );
    let rest = eval_rules(
        d,
        f.st,
        later(used, f.used),
        n,
        one.drop_last(),
        seq![answer].drop_last(),
        answers,
    );
    assert(rest.outcome is Done && rest.st == f.st);
}

/// `TUP_CWD` leads from the directory in which evaluation began to that of the file; all other
/// variables, the macros and the rest of the scope stay.
pub proof fn a_file_knows_where_it_is(
    d: DirsText,
    scope: ScopeText,
    base: Seq<char>,
    origin: Seq<char>,
    v: Seq<char>,
)
    requires
        d.base == Some(base),
        d.origin == Some(origin),
        is_absolute(base),
        is_absolute(origin),
        forall|i: int|
            common_prefix(normal_components(origin), normal_components(base)) <= i
                < normal_components(origin).len() ==> is_name(
                #[trigger] normal_components(origin)[i],
            ),
        v != "TUP_CWD"@,
    ensures
        ({
            let e = enter(d, scope);
            &&& e.vars.vars.dom().contains("TUP_CWD"@)
            &&& normal_components(path_join(origin, e.vars.vars["TUP_CWD"@]))
                == normal_components(base)
            &&& e.vars.vars.dom().contains(v) == scope.vars.vars.dom().contains(v)
            &&& scope.vars.vars.dom().contains(v) ==> e.vars.vars[v] == scope.vars.vars[v]
            &&& e.vars.config == scope.vars.config
            &&& e.bangs == scope.bangs && e.gitignore == scope.gitignore
        }),
{
    relative_path_leads_there(origin, base);
}

/// Evaluation begins in the directory of the Tupfile where that is known, and otherwise in the
/// directory that relative paths start from.
pub proof fn evaluation_begins_somewhere(
    base: Option<Seq<char>>,
    root: Option<Seq<char>>,
    tupfile: Seq<char>,
)
    ensures
        start_dirs(base, root, Some(tupfile)).origin == Some(tupfile),
        start_dirs(base, root, None).origin == base,
        start_dirs(base, root, Some(tupfile)).base == base,
        start_dirs(base, root, Some(tupfile)).root == root,
{
}

} // verus!
