//! The lines of a Tupfile.
use vstd::prelude::*;

use crate::parser::errors::{ErrorText, ParseError};
use crate::parser::rule::{rule_of, Rule, RuleText};
use crate::text::{
    copy_str, find, find_char, find_is_first_occurrence, lines, same, str_find, str_find_char,
    str_first_is, str_last_is, str_lines, str_skip, str_slice, str_strip_prefix, str_strip_suffix,
    str_take, str_trim, str_trim_start, strip_prefix, strip_suffix, texts, trim, trim_start,
};

verus! {

/// A parsed line from a Tupfile.
#[derive(Debug)]
pub enum TupfileLine {
    /// Empty line or comment.
    Empty,
    /// Variable assignment: `VAR = value`
    VarAssign { name: String, value: String },
    /// Variable append: `VAR += value`
    VarAppend { name: String, value: String },
    /// Rule: `: [foreach] inputs |> command |> outputs`
    Rule(Rule),
    /// Bang macro definition: `!name = ...`
    BangDef { name: String, definition: String },
    /// Inclusion of the file that is named.
    Include(String),
    /// Inclusion of the `Tuprules.tup` files of the directories above.
    IncludeRules,
    /// Export of an environment variable: `export VAR`
    Export(String),
    /// Import of an environment variable: `import VAR[=default]`
    Import(String),
    /// Preload directive: `preload DIR`
    Preload(String),
    /// Script to run: `run SCRIPT`
    Run(String),
    /// Error directive: `error MESSAGE`
    Error(String),
    /// Request for ignore files: `.gitignore`
    GitIgnore,
    /// `ifdef VAR`
    Ifdef(String),
    /// `ifndef VAR`
    Ifndef(String),
    /// `ifeq (A,B)`
    Ifeq(String, String),
    /// `ifneq (A,B)`
    Ifneq(String, String),
    /// `else`
    Else,
    /// `endif`
    Endif,
    /// A line that is none of these: an error in an active branch, ignored
    /// elsewhere.
    Unknown(String),
}

/// A parsed line as texts.
#[verifier::ext_equal]
pub enum LineText {
    Empty,
    VarAssign { name: Seq<char>, value: Seq<char> },
    VarAppend { name: Seq<char>, value: Seq<char> },
    Rule(RuleText),
    BangDef { name: Seq<char>, definition: Seq<char> },
    Include(Seq<char>),
    IncludeRules,
    Export(Seq<char>),
    Import(Seq<char>),
    Preload(Seq<char>),
    Run(Seq<char>),
    Error(Seq<char>),
    GitIgnore,
    Ifdef(Seq<char>),
    Ifndef(Seq<char>),
    Ifeq(Seq<char>, Seq<char>),
    Ifneq(Seq<char>, Seq<char>),
    Else,
    Endif,
    Unknown(Seq<char>),
}

impl View for TupfileLine {
    type V = LineText;

    open spec fn view(&self) -> LineText {
        match *self {
            TupfileLine::Empty => LineText::Empty,
            TupfileLine::VarAssign { name, value } => LineText::VarAssign {
                name: name@,
                value: value@,
            },
            TupfileLine::VarAppend { name, value } => LineText::VarAppend {
                name: name@,
                value: value@,
            },
            TupfileLine::Rule(r) => LineText::Rule(r@),
            TupfileLine::BangDef { name, definition } => LineText::BangDef {
                name: name@,
                definition: definition@,
            },
            TupfileLine::Include(s) => LineText::Include(s@),
            TupfileLine::IncludeRules => LineText::IncludeRules,
            TupfileLine::Export(s) => LineText::Export(s@),
            TupfileLine::Import(s) => LineText::Import(s@),
            TupfileLine::Preload(s) => LineText::Preload(s@),
            TupfileLine::Run(s) => LineText::Run(s@),
            TupfileLine::Error(s) => LineText::Error(s@),
            TupfileLine::GitIgnore => LineText::GitIgnore,
            TupfileLine::Ifdef(s) => LineText::Ifdef(s@),
            TupfileLine::Ifndef(s) => LineText::Ifndef(s@),
            TupfileLine::Ifeq(a, b) => LineText::Ifeq(a@, b@),
            TupfileLine::Ifneq(a, b) => LineText::Ifneq(a@, b@),
            TupfileLine::Else => LineText::Else,
            TupfileLine::Endif => LineText::Endif,
            TupfileLine::Unknown(s) => LineText::Unknown(s@),
        }
    }
}

/// A line and its number.
#[derive(Debug)]
pub struct ParsedLine {
    pub content: TupfileLine,
    pub line_number: usize,
}

impl View for ParsedLine {
    type V = (LineText, usize);

    open spec fn view(&self) -> (LineText, usize) {
        (self.content@, self.line_number)
    }
}

/// The lines of a list, as texts.
pub open spec fn line_texts(v: Seq<ParsedLine>) -> Seq<(LineText, usize)> {
    Seq::new(v.len(), |i: int| v[i]@)
}

/// The two values of `(A, B)`.
pub open spec fn eq_args(text: Seq<char>) -> Option<(Seq<char>, Seq<char>)> {
    let text = trim(text);
    if text.len() > 0 && text[0] == '(' && text.last() == ')' {
        let inner = text.subrange(1, text.len() - 1);
        match find_char(inner, ',') {
            Some(k) => Some((trim(inner.take(k)), trim(inner.skip(k + 1)))),
            None => None,
        }
    } else {
        None
    }
}

pub open spec fn syntax_error(file: Seq<char>, line: usize, message: Seq<char>) -> ErrorText {
    ErrorText::Syntax { file, line, message }
}

/// What follows a directive's name and a space, without white space around it.
pub open spec fn operand(line: Seq<char>, word: Seq<char>) -> Option<Seq<char>> {
    match strip_prefix(line, word) {
        Some(rest) => Some(trim(rest)),
        None => None,
    }
}

/// The meaning of a line that is a conditional or another directive.
pub open spec fn directive_of(line: Seq<char>, line_number: usize, filename: Seq<char>) -> Option<
    Result<LineText, ErrorText>,
> {
    if line == "else"@ {
        Some(Ok(LineText::Else))
    } else if line == "endif"@ {
        Some(Ok(LineText::Endif))
    } else if operand(line, "ifdef "@) is Some {
        Some(Ok(LineText::Ifdef(operand(line, "ifdef "@)->0)))
    } else if operand(line, "ifndef "@) is Some {
        Some(Ok(LineText::Ifndef(operand(line, "ifndef "@)->0)))
    } else if strip_prefix(line, "ifeq "@) is Some {
        Some(
            match eq_args(strip_prefix(line, "ifeq "@)->0) {
                Some((a, b)) => Ok(LineText::Ifeq(a, b)),
                None => Err(syntax_error(filename, line_number, "expected (value1, value2)"@)),
            },
        )
    } else if strip_prefix(line, "ifneq "@) is Some {
        Some(
            match eq_args(strip_prefix(line, "ifneq "@)->0) {
                Some((a, b)) => Ok(LineText::Ifneq(a, b)),
                None => Err(syntax_error(filename, line_number, "expected (value1, value2)"@)),
            },
        )
    } else if operand(line, "include "@) is Some {
        Some(Ok(LineText::Include(operand(line, "include "@)->0)))
    } else if line == "include_rules"@ {
        Some(Ok(LineText::IncludeRules))
    } else if operand(line, "export "@) is Some {
        Some(Ok(LineText::Export(operand(line, "export "@)->0)))
    } else if operand(line, "import "@) is Some {
        Some(Ok(LineText::Import(operand(line, "import "@)->0)))
    } else if operand(line, "preload "@) is Some {
        Some(Ok(LineText::Preload(operand(line, "preload "@)->0)))
    } else if operand(line, "run "@) is Some {
        Some(Ok(LineText::Run(operand(line, "run "@)->0)))
    } else if operand(line, "error "@) is Some {
        Some(Ok(LineText::Error(operand(line, "error "@)->0)))
    } else if line == ".gitignore"@ {
        Some(Ok(LineText::GitIgnore))
    } else {
        None
    }
}

/// The meaning of a line that is no directive: a rule, a macro, an assignment,
/// or nothing known.
pub open spec fn statement_of(line: Seq<char>, line_number: usize, filename: Seq<char>) -> Result<
    LineText,
    ErrorText,
> {
    if line.len() > 0 && line[0] == ':' {
        match rule_of(line.skip(1), line_number) {
            Ok(rule) => Ok(LineText::Rule(rule)),
            Err(m) => Err(syntax_error(filename, line_number, m)),
        }
    } else if line.len() > 0 && line[0] == '!' && find(line, " = "@) is Some {
        let k = find(line, " = "@)->0;
        Ok(LineText::BangDef { name: line.subrange(1, k), definition: line.skip(k + 3) })
    } else {
        match find(line, " += "@) {
            Some(k) => Ok(
                LineText::VarAppend { name: trim(line.take(k)), value: line.skip(k + 4) },
            ),
            None => match find(line, " = "@) {
                Some(k) => Ok(
                    LineText::VarAssign { name: trim(line.take(k)), value: line.skip(k + 3) },
                ),
                None => match find(line, " := "@) {
                    Some(k) => Ok(
                        LineText::VarAssign { name: trim(line.take(k)), value: line.skip(k + 4) },
                    ),
                    None => Ok(LineText::Unknown(line)),
                },
            },
        }
    }
}

/// The meaning of a line.
pub open spec fn line_of(line: Seq<char>, line_number: usize, filename: Seq<char>) -> Result<
    LineText,
    ErrorText,
> {
    match directive_of(line, line_number, filename) {
        Some(r) => r,
        None => statement_of(line, line_number, filename),
    }
}

pub open spec fn line_result(
    r: Result<TupfileLine, ParseError>,
    expected: Result<LineText, ErrorText>,
) -> bool {
    match r {
        Ok(l) => expected == Ok::<LineText, ErrorText>(l@),
        Err(e) => expected == Err::<LineText, ErrorText>(e@),
    }
}

/// Parses the arguments `(A, B)` of `ifeq` and `ifneq`.
pub fn parse_eq_args(text: &str) -> (r: Result<(String, String), String>)
    ensures
        match r {
            Ok((a, b)) => eq_args(text@) == Some((a@, b@)),
            Err(m) => eq_args(text@) is None && m@ == "expected (value1, value2)"@,
        },
{
    let text = str_trim(text);
    if !str_first_is(text, '(') || !str_last_is(text, ')') {
        return Err(copy_str("expected (value1, value2)"));
    }
    let n = text.unicode_len();
    assert(n >= 2) by {
        if n == 1 {
            assert(text@[0] == text@.last());
        }
    }
    let inner = str_slice(text, 1, n - 1);
    match str_find_char(inner, ',') {
        Some(k) => Ok(
            (
                copy_str(str_trim(str_take(inner, k))),
                copy_str(str_trim(str_skip(inner, k + 1))),
            ),
        ),
        None => Err(copy_str("expected (value1, value2)")),
    }
}

fn str_operand(line: &str, word: &str) -> (r: Option<String>)
    ensures
        match r {
            Some(s) => operand(line@, word@) == Some(s@),
            None => operand(line@, word@) is None,
        },
{
    match str_strip_prefix(line, word) {
        Some(rest) => Some(copy_str(str_trim(rest))),
        None => None,
    }
}

fn syntax(file: &str, line: usize, message: String) -> (r: ParseError)
    ensures
        r@ == syntax_error(file@, line, message@),
{
    ParseError::Syntax { file: copy_str(file), line, message }
}

fn parse_directive(line: &str, line_number: usize, filename: &str) -> (r: Option<
    Result<TupfileLine, ParseError>,
>)
    ensures
        match r {
            Some(l) => directive_of(line@, line_number, filename@) is Some && line_result(
                l,
                directive_of(line@, line_number, filename@)->0,
            ),
            None => directive_of(line@, line_number, filename@) is None,
        },
{
    if same(line, "else") {
        return Some(Ok(TupfileLine::Else));
    }
    if same(line, "endif") {
        return Some(Ok(TupfileLine::Endif));
    }
    if let Some(s) = str_operand(line, "ifdef ") {
        return Some(Ok(TupfileLine::Ifdef(s)));
    }
    if let Some(s) = str_operand(line, "ifndef ") {
        return Some(Ok(TupfileLine::Ifndef(s)));
    }
    if let Some(rest) = str_strip_prefix(line, "ifeq ") {
        return match parse_eq_args(rest) {
            Ok((a, b)) => Some(Ok(TupfileLine::Ifeq(a, b))),
            Err(m) => Some(Err(syntax(filename, line_number, m))),
        };
    }
    if let Some(rest) = str_strip_prefix(line, "ifneq ") {
        return match parse_eq_args(rest) {
            Ok((a, b)) => Some(Ok(TupfileLine::Ifneq(a, b))),
            Err(m) => Some(Err(syntax(filename, line_number, m))),
        };
    }
    if let Some(s) = str_operand(line, "include ") {
        return Some(Ok(TupfileLine::Include(s)));
    }
    if same(line, "include_rules") {
        return Some(Ok(TupfileLine::IncludeRules));
    }
    if let Some(s) = str_operand(line, "export ") {
        return Some(Ok(TupfileLine::Export(s)));
    }
    if let Some(s) = str_operand(line, "import ") {
        return Some(Ok(TupfileLine::Import(s)));
    }
    if let Some(s) = str_operand(line, "preload ") {
        return Some(Ok(TupfileLine::Preload(s)));
    }
    if let Some(s) = str_operand(line, "run ") {
        return Some(Ok(TupfileLine::Run(s)));
    }
    if let Some(s) = str_operand(line, "error ") {
        return Some(Ok(TupfileLine::Error(s)));
    }
    if same(line, ".gitignore") {
        return Some(Ok(TupfileLine::GitIgnore));
    }
    None
}

fn parse_statement(line: &str, line_number: usize, filename: &str) -> (r: Result<
    TupfileLine,
    ParseError,
>)
    ensures
        line_result(r, statement_of(line@, line_number, filename@)),
{
    if str_first_is(line, ':') {
        return match Rule::parse(str_skip(line, 1), line_number) {
            Ok(rule) => Ok(TupfileLine::Rule(rule)),
            Err(m) => Err(syntax(filename, line_number, m)),
        };
    }
    proof {
        reveal_strlit(" = ");
        reveal_strlit(" += ");
        reveal_strlit(" := ");
        find_is_first_occurrence(line@, " = "@);
    }
    let assign = str_find(line, " = ");
    if str_first_is(line, '!') {
        if let Some(k) = assign {
            assert(k > 0) by {
                if k == 0 {
                    assert(line@.subrange(0, 3)[0] == " = "@[0]);
                }
            }
            return Ok(
                TupfileLine::BangDef {
                    name: copy_str(str_slice(line, 1, k)),
                    definition: copy_str(str_skip(line, k + 3)),
                },
            );
        }
    }
    if let Some(k) = str_find(line, " += ") {
        return Ok(
            TupfileLine::VarAppend {
                name: copy_str(str_trim(str_take(line, k))),
                value: copy_str(str_skip(line, k + 4)),
            },
        );
    }
    if let Some(k) = assign {
        return Ok(
            TupfileLine::VarAssign {
                name: copy_str(str_trim(str_take(line, k))),
                value: copy_str(str_skip(line, k + 3)),
            },
        );
    }
    if let Some(k) = str_find(line, " := ") {
        return Ok(
            TupfileLine::VarAssign {
                name: copy_str(str_trim(str_take(line, k))),
                value: copy_str(str_skip(line, k + 4)),
            },
        );
    }
    Ok(TupfileLine::Unknown(copy_str(line)))
}

/// Parses a single line.
///
/// Conditionals and other directives come before rules, macros and variable
/// assignments. A line that is none of these is kept as unknown.
pub fn parse_line(line: &str, line_number: usize, filename: &str) -> (r: Result<
    TupfileLine,
    ParseError,
>)
    ensures
        line_result(r, line_of(line@, line_number, filename@)),
{
    match parse_directive(line, line_number, filename) {
        Some(r) => r,
        None => parse_statement(line, line_number, filename),
    }
}

/// Lines joined where one ends with `\`, and whether the last one does. A line
/// that continues another loses its leading white space, and a space stands
/// between the two.
pub open spec fn joined(ls: Seq<Seq<char>>) -> (Seq<char>, bool)
    decreases ls.len(),
{
    if ls.len() == 0 {
        (Seq::empty(), false)
    } else {
        let (acc, open) = joined(ls.drop_last());
        let line = if open {
            trim_start(ls.last())
        } else {
            ls.last()
        };
        let acc = if open {
            acc.push(' ')
        } else {
            acc
        };
        match strip_suffix(line, "\\"@) {
            Some(s) => (acc + s, true),
            None => ((acc + line).push('\n'), false),
        }
    }
}

/// A text with its continued lines joined.
pub open spec fn join_continuations(content: Seq<char>) -> Seq<char> {
    joined(lines(content)).0
}

/// Lines, each with its end.
pub open spec fn ended(ls: Seq<Seq<char>>) -> Seq<char>
    decreases ls.len(),
{
    if ls.len() == 0 {
        Seq::empty()
    } else {
        (ended(ls.drop_last()) + ls.last()).push('\n')
    }
}

/// Lines of which none is continued stay as they are.
pub proof fn lines_that_end_stay(ls: Seq<Seq<char>>)
    requires
        forall|i: int| 0 <= i < ls.len() ==> strip_suffix(#[trigger] ls[i], "\\"@) is None,
    ensures
        joined(ls) == (ended(ls), false),
    decreases ls.len(),
{
    if ls.len() > 0 {
        let b = ls.drop_last();
        assert forall|i: int| 0 <= i < b.len() implies strip_suffix(
            #[trigger] b[i],
            "\\"@,
        ) is None by {
            assert(b[i] == ls[i]);
        }
        lines_that_end_stay(b);
        assert(ls.last() == ls[ls.len() - 1]);
    }
}

/// Joins lines ending with `\` with the lines that continue them.
pub fn join_continuation_lines(content: &str) -> (r: String)
    ensures
        r@ == join_continuations(content@),
{
    let ls = str_lines(content);
    let ghost all = texts(ls@);
    let mut out = String::new();
    let mut open = false;
    let mut i: usize = 0;
    while i < ls.len()
        invariant
            i <= ls@.len(),
            all == texts(ls@),
            (out@, open) == joined(all.take(i as int)),
        decreases ls.len() - i,
    {
        proof {
            assert(all.take(i + 1).drop_last() =~= all.take(i as int));
            assert(all.take(i + 1).last() == ls@[i as int]@);
        }
        let mut line = ls[i].as_str();
        if open {
            out.push(' ');
            line = str_trim_start(line);
        }
        match str_strip_suffix(line, "\\") {
            Some(s) => {
                out.append(s);
                open = true;
            },
            None => {
                out.append(line);
                out.push('\n');
                open = false;
            },
        }
        i += 1;
    }
    assert(all.take(all.len() as int) =~= all);
    out
}

/// The parsed lines of a file, comments and empty lines left out, or the first
/// error.
pub open spec fn lines_of(ls: Seq<Seq<char>>, filename: Seq<char>) -> Result<
    Seq<(LineText, usize)>,
    ErrorText,
>
    decreases ls.len(),
{
    if ls.len() == 0 {
        Ok(Seq::empty())
    } else {
        match lines_of(ls.drop_last(), filename) {
            Err(e) => Err(e),
            Ok(before) => {
                let line = trim(ls.last());
                let number = ls.len() as usize;
                if line.len() == 0 || line[0] == '#' {
                    Ok(before)
                } else {
                    match line_of(line, number, filename) {
                        Ok(l) => Ok(before.push((l, number))),
                        Err(e) => Err(e),
                    }
                }
            },
        }
    }
}

/// The parsed lines of a file's content.
pub open spec fn parsed_content(content: Seq<char>, filename: Seq<char>) -> Result<
    Seq<(LineText, usize)>,
    ErrorText,
> {
    lines_of(lines(join_continuations(content)), filename)
}

proof fn lemma_lines_of_fails_early(ls: Seq<Seq<char>>, filename: Seq<char>, n: int)
    requires
        0 <= n <= ls.len(),
        lines_of(ls.take(n), filename) is Err,
    ensures
        lines_of(ls, filename) == lines_of(ls.take(n), filename),
    decreases ls.len() - n,
{
    if n < ls.len() {
        assert(ls.take(n + 1).drop_last() =~= ls.take(n));
        lemma_lines_of_fails_early(ls, filename, n + 1);
    } else {
        assert(ls.take(n) =~= ls);
    }
}

/// Parses the content of a file into lines.
pub fn parse_lines(content: &str, filename: &str) -> (r: Result<Vec<ParsedLine>, ParseError>)
    ensures
        match r {
            Ok(v) => parsed_content(content@, filename@) == Ok::<
                Seq<(LineText, usize)>,
                ErrorText,
            >(line_texts(v@)),
            Err(e) => parsed_content(content@, filename@) == Err::<
                Seq<(LineText, usize)>,
                ErrorText,
            >(e@),
        },
{
    let whole = join_continuation_lines(content);
    let ls = str_lines(whole.as_str());
    let ghost all = texts(ls@);
    let mut out: Vec<ParsedLine> = Vec::new();
    let mut i: usize = 0;
    proof {
        assert(all.take(0) =~= Seq::empty());
        assert(line_texts(out@) =~= Seq::empty());
    }
    while i < ls.len()
        invariant
            i <= ls@.len(),
            all == texts(ls@),
            all == lines(join_continuations(content@)),
            lines_of(all.take(i as int), filename@) == Ok::<Seq<(LineText, usize)>, ErrorText>(
                line_texts(out@),
            ),
        decreases ls.len() - i,
    {
        proof {
            assert(all.take(i + 1).drop_last() =~= all.take(i as int));
            assert(all.take(i + 1).last() == ls@[i as int]@);
        }
        let line = str_trim(ls[i].as_str());
        let number: usize = i + 1;
        if !(line.is_empty() || str_first_is(line, '#')) {
            match parse_line(line, number, filename) {
                Ok(content) => {
                    let ghost before = line_texts(out@);
                    out.push(ParsedLine { content, line_number: number });
                    assert(line_texts(out@) =~= before.push((content@, number)));
                },
                Err(e) => {
                    proof {
                        lemma_lines_of_fails_early(all, filename@, i + 1);
                    }
                    return Err(e);
                },
            }
        }
        i += 1;
    }
    assert(all.take(all.len() as int) =~= all);
    Ok(out)
}

} // verus!
