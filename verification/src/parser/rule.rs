//! Rules: `: [foreach] INPUT |> COMMAND |> OUTPUT`.
use vstd::prelude::*;

use crate::ordmap::{deep, OrdMap};
use crate::text::{
    copy_str, copy_strings, find, find_char, join, join_strings, same, split, split_words,
    str_find, str_find_char, str_skip, str_split, str_strip_prefix, str_strip_suffix, str_take,
    str_trim, strip_prefix, strip_suffix, texts, to_chars, trim, words,
};

verus! {

/// A parsed rule from a Tupfile.
///
/// Rules have the form: `: [foreach] INPUT |> COMMAND |> OUTPUT`
#[derive(Debug)]
pub struct Rule {
    /// Whether the rule is run once for each input.
    pub foreach: bool,
    /// Input file patterns (before the first `|>`).
    pub inputs: Vec<String>,
    /// Order-only inputs (after `|` in the input section).
    pub order_only_inputs: Vec<String>,
    /// The command to execute.
    pub command: RuleCommand,
    /// Output file patterns (after the second `|>`).
    pub outputs: Vec<String>,
    /// Extra outputs (after `|` in the output section).
    pub extra_outputs: Vec<String>,
    /// Line number in the Tupfile.
    pub line_number: usize,
    /// Whether the rule had inputs before expansion. A rule that had some and
    /// whose inputs expand to nothing is skipped; one that had none runs.
    pub had_inputs: bool,
    /// The variables at the time when the rule was parsed, for the expansion
    /// that follows the `%`-flags.
    pub vars_snapshot: Option<OrdMap<String, String>>,
    /// The bin (`{name}`) that collects the outputs, if any.
    pub bin: Option<String>,
}

/// The command portion of a rule.
#[derive(Debug)]
pub struct RuleCommand {
    /// Display string (between `^` markers, if present).
    pub display: Option<String>,
    /// Flags (after `^`, before the display string).
    pub flags: Option<String>,
    /// The command to execute.
    pub command: String,
}

/// A rule as texts.
#[verifier::ext_equal]
pub struct RuleText {
    pub foreach: bool,
    pub inputs: Seq<Seq<char>>,
    pub order_only_inputs: Seq<Seq<char>>,
    pub command: CommandText,
    pub outputs: Seq<Seq<char>>,
    pub extra_outputs: Seq<Seq<char>>,
    pub line_number: usize,
    pub had_inputs: bool,
    pub vars_snapshot: Option<Map<Seq<char>, Seq<char>>>,
    pub bin: Option<Seq<char>>,
}

/// A command as texts.
#[verifier::ext_equal]
pub struct CommandText {
    pub display: Option<Seq<char>>,
    pub flags: Option<Seq<char>>,
    pub command: Seq<char>,
}

/// The text of an optional string.
pub open spec fn opt_text(s: Option<String>) -> Option<Seq<char>> {
    match s {
        Some(t) => Some(t@),
        None => None,
    }
}

impl View for RuleCommand {
    type V = CommandText;

    open spec fn view(&self) -> CommandText {
        CommandText {
            display: opt_text(self.display),
            flags: opt_text(self.flags),
            command: self.command@,
        }
    }
}

impl View for Rule {
    type V = RuleText;

    open spec fn view(&self) -> RuleText {
        RuleText {
            foreach: self.foreach,
            inputs: texts(self.inputs@),
            order_only_inputs: texts(self.order_only_inputs@),
            command: self.command@,
            outputs: texts(self.outputs@),
            extra_outputs: texts(self.extra_outputs@),
            line_number: self.line_number,
            had_inputs: self.had_inputs,
            vars_snapshot: match self.vars_snapshot {
                Some(m) => Some(deep(m@)),
                None => None,
            },
            bin: opt_text(self.bin),
        }
    }
}

pub fn copy_opt(s: &Option<String>) -> (r: Option<String>)
    ensures
        opt_text(r) == opt_text(*s),
{
    match s {
        Some(t) => Some(t.clone()),
        None => None,
    }
}

impl Clone for RuleCommand {
    fn clone(&self) -> (r: Self)
        ensures
            r@ == self@,
    {
        RuleCommand {
            display: copy_opt(&self.display),
            flags: copy_opt(&self.flags),
            command: self.command.clone(),
        }
    }
}

impl Clone for Rule {
    fn clone(&self) -> (r: Self)
        ensures
            r@ == self@,
    {
        Rule {
            foreach: self.foreach,
            inputs: copy_strings(self.inputs.as_slice()),
            order_only_inputs: copy_strings(self.order_only_inputs.as_slice()),
            command: self.command.clone(),
            outputs: copy_strings(self.outputs.as_slice()),
            extra_outputs: copy_strings(self.extra_outputs.as_slice()),
            line_number: self.line_number,
            had_inputs: self.had_inputs,
            vars_snapshot: match &self.vars_snapshot {
                Some(m) => Some(m.copy()),
                None => None,
            },
            bin: copy_opt(&self.bin),
        }
    }
}

/// The rules of a list, as texts.
pub open spec fn rule_texts(v: Seq<Rule>) -> Seq<RuleText> {
    Seq::new(v.len(), |i: int| v[i]@)
}

pub proof fn lemma_rule_texts_push(v: Seq<Rule>, r: Rule)
    ensures
        rule_texts(v.push(r)) == rule_texts(v).push(r@),
{
    assert(rule_texts(v.push(r)) =~= rule_texts(v).push(r@));
}

/// The message for a rule with too few sections.
pub open spec fn short_rule_message() -> Seq<char> {
    "rule must have at least 3 sections separated by |>"@
}

/// A rule without the word `foreach` before it, and whether it stood there.
pub open spec fn foreach_split(text: Seq<char>) -> (bool, Seq<char>) {
    match strip_prefix(text, "foreach "@) {
        Some(rest) => (true, trim(rest)),
        None => match strip_prefix(text, "foreach\t"@) {
            Some(rest) => (true, trim(rest)),
            None => (false, text),
        },
    }
}

/// The sections after the second, with the separators between them.
pub open spec fn output_part(parts: Seq<Seq<char>>) -> Seq<char> {
    join(parts.skip(2), "|>"@)
}

/// The rule that stands in the text after the leading `:`, or the message that
/// says why there is none.
pub open spec fn rule_of(text: Seq<char>, line_number: usize) -> Result<RuleText, Seq<char>> {
    let (foreach, rest) = foreach_split(trim(text));
    let parts = split(rest, "|>"@);
    if parts.len() < 3 {
        Err(short_rule_message())
    } else {
        let (inputs, order_only_inputs) = input_section(trim(parts[0]));
        let (outputs, extra_outputs) = output_section(trim(output_part(parts)));
        Ok(
            RuleText {
                foreach,
                inputs,
                order_only_inputs,
                command: command_section(trim(parts[1])),
                outputs,
                extra_outputs,
                line_number,
                had_inputs: inputs.len() != 0,
                vars_snapshot: None,
                bin: None,
            },
        )
    }
}

/// The inputs of a section, and the order-only inputs that follow `|`.
pub open spec fn input_section(text: Seq<char>) -> (Seq<Seq<char>>, Seq<Seq<char>>) {
    match find(text, " | "@) {
        Some(k) => (words(text.take(k)), words(text.skip(k + 3))),
        None => match strip_prefix(text, "| "@) {
            Some(rest) => (Seq::empty(), words(rest)),
            None => if text == "|"@ {
                (Seq::empty(), Seq::empty())
            } else {
                match strip_suffix(text, " |"@) {
                    Some(before) => (words(before), Seq::empty()),
                    None => (words(text), Seq::empty()),
                }
            },
        },
    }
}

/// The outputs of a section, and the extra outputs that follow `|`.
pub open spec fn output_section(text: Seq<char>) -> (Seq<Seq<char>>, Seq<Seq<char>>) {
    match find(text, " | "@) {
        Some(k) => (words(text.take(k)), words(text.skip(k + 3))),
        None => (words(text), Seq::empty()),
    }
}

/// Whether a word can be flags: one or two lower-case ASCII letters.
pub open spec fn is_flag_word(w: Seq<char>) -> bool {
    &&& 1 <= w.len() <= 2
    &&& forall|i: int| 0 <= i < w.len() ==> 'a' <= #[trigger] w[i] <= 'z'
}

/// The flags and the display string that stand between the `^` markers.
pub open spec fn display_section(text: Seq<char>) -> (Option<Seq<char>>, Option<Seq<char>>) {
    match find_char(text, ' ') {
        Some(k) => if is_flag_word(text.take(k)) {
            let shown = trim(text.skip(k + 1));
            (
                Some(text.take(k)),
                if shown.len() == 0 {
                    None
                } else {
                    Some(shown)
                },
            )
        } else {
            (None, Some(text))
        },
        None => if text.len() == 0 {
            (None, None)
        } else {
            (None, Some(text))
        },
    }
}

/// The command of a section, with the `^FLAGS DISPLAY^` before it.
pub open spec fn command_section(text: Seq<char>) -> CommandText {
    if text.len() > 0 && text[0] == '^' {
        let rest = text.skip(1);
        match find_char(rest, '^') {
            Some(end) => {
                let (flags, display) = display_section(rest.take(end));
                CommandText { display, flags, command: trim(rest.skip(end + 1)) }
            },
            None => CommandText { display: None, flags: None, command: text },
        }
    } else {
        CommandText { display: None, flags: None, command: text }
    }
}

/// Whether a parsed result is what the text stands for.
pub open spec fn rule_result(
    r: Result<Rule, String>,
    expected: Result<RuleText, Seq<char>>,
) -> bool {
    match r {
        Ok(rule) => expected == Ok::<RuleText, Seq<char>>(rule@),
        Err(m) => expected == Err::<RuleText, Seq<char>>(m@),
    }
}

impl Rule {
    /// Parses a rule from the text after the leading `:`.
    ///
    /// Format: `[foreach] INPUT... |> [^FLAGS DISPLAY^] COMMAND |> OUTPUT... [| EXTRA...]`
    pub fn parse(text: &str, line_number: usize) -> (r: Result<Self, String>)
        ensures
            rule_result(r, rule_of(text@, line_number)),
    {
        let text = str_trim(text);
        let mut foreach = false;
        let mut rest = text;
        match str_strip_prefix(text, "foreach ") {
            Some(t) => {
                foreach = true;
                rest = str_trim(t);
            },
            None => match str_strip_prefix(text, "foreach\t") {
                Some(t) => {
                    foreach = true;
                    rest = str_trim(t);
                },
                None => {},
            },
        }
        proof {
            reveal_strlit("|>");
        }
        let parts = str_split(rest, "|>");
        let ghost pieces = texts(parts@);
        if parts.len() < 3 {
            return Err(copy_str("rule must have at least 3 sections separated by |>"));
        }
        let (inputs, order_only_inputs) = parse_input_section(str_trim(parts[0].as_str()));
        let command = parse_command_section(str_trim(parts[1].as_str()));
        let output_text = join_tail(&parts);
        let (outputs, extra_outputs) = parse_output_section(str_trim(output_text.as_str()));
        let had_inputs = inputs.len() != 0;
        assert(texts(inputs@).len() == inputs@.len());
        Ok(
            Rule {
                foreach,
                inputs,
                order_only_inputs,
                command,
                outputs,
                extra_outputs,
                line_number,
                had_inputs,
                vars_snapshot: None,
                bin: None,
            },
        )
    }
}

/// Joins the sections after the second with the separator they were split at.
pub fn join_tail(parts: &Vec<String>) -> (r: String)
    requires
        parts@.len() >= 2,
    ensures
        r@ == output_part(texts(parts@)),
{
    let tail = vstd::slice::slice_subrange(parts.as_slice(), 2, parts.len());
    assert(texts(tail@) =~= texts(parts@).skip(2));
    join_strings(tail, "|>")
}

/// Parses the input section of a rule.
///
/// Inputs are separated by white space. Order-only inputs follow `|`.
pub fn parse_input_section(text: &str) -> (r: (Vec<String>, Vec<String>))
    ensures
        (texts(r.0@), texts(r.1@)) == input_section(text@),
{
    proof {
        reveal_strlit(" | ");
        assert(texts(Seq::<String>::empty()) =~= Seq::<Seq<char>>::empty());
    }
    match str_find(text, " | ") {
        Some(k) => (split_words(str_take(text, k)), split_words(str_skip(text, k + 3))),
        None => match str_strip_prefix(text, "| ") {
            Some(rest) => (Vec::new(), split_words(rest)),
            None => if same(text, "|") {
                (Vec::new(), Vec::new())
            } else {
                match str_strip_suffix(text, " |") {
                    Some(before) => (split_words(before), Vec::new()),
                    None => (split_words(text), Vec::new()),
                }
            },
        },
    }
}

fn flag_word(w: &str) -> (r: bool)
    ensures
        r == is_flag_word(w@),
{
    let v = to_chars(w);
    if v.len() == 0 || v.len() > 2 {
        return false;
    }
    let mut i: usize = 0;
    while i < v.len()
        invariant
            i <= v.len(),
            v@ == w@,
            forall|j: int| 0 <= j < i ==> 'a' <= #[trigger] v@[j] <= 'z',
        decreases v.len() - i,
    {
        if !('a' <= v[i] && v[i] <= 'z') {
            return false;
        }
        i += 1;
    }
    true
}

fn parse_display_section(text: &str) -> (r: (Option<String>, Option<String>))
    ensures
        (opt_text(r.0), opt_text(r.1)) == display_section(text@),
{
    match str_find_char(text, ' ') {
        Some(k) => {
            let w = str_take(text, k);
            if flag_word(w) {
                let shown = str_trim(str_skip(text, k + 1));
                if shown.is_empty() {
                    (Some(copy_str(w)), None)
                } else {
                    (Some(copy_str(w)), Some(copy_str(shown)))
                }
            } else {
                (None, Some(copy_str(text)))
            }
        },
        None => if text.is_empty() {
            (None, None)
        } else {
            (None, Some(copy_str(text)))
        },
    }
}

/// Parses the command section of a rule.
///
/// It may start with `^DISPLAY^` before the command. Flags are one or two
/// letters at the start of the display string, followed by a space:
/// `^t CC foo.c^` has the flags `t` and the display string `CC foo.c`.
pub fn parse_command_section(text: &str) -> (r: RuleCommand)
    ensures
        r@ == command_section(text@),
{
    let v = to_chars(text);
    if v.len() > 0 && v[0] == '^' {
        let rest = str_skip(text, 1);
        match str_find_char(rest, '^') {
            Some(end) => {
                let (flags, display) = parse_display_section(str_take(rest, end));
                let command = copy_str(str_trim(str_skip(rest, end + 1)));
                return RuleCommand { display, flags, command };
            },
            None => {},
        }
    }
    RuleCommand { display: None, flags: None, command: copy_str(text) }
}

/// Parses the output section of a rule.
///
/// Extra outputs follow `|`.
pub fn parse_output_section(text: &str) -> (r: (Vec<String>, Vec<String>))
    ensures
        (texts(r.0@), texts(r.1@)) == output_section(text@),
{
    proof {
        reveal_strlit(" | ");
        assert(texts(Seq::<String>::empty()) =~= Seq::<Seq<char>>::empty());
    }
    match str_find(text, " | ") {
        Some(k) => (split_words(str_take(text, k)), split_words(str_skip(text, k + 3))),
        None => (split_words(text), Vec::new()),
    }
}

} // verus!
