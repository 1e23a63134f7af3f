//! Bang macros: named rule templates.
use vstd::prelude::*;

use crate::ordmap::{deep, lemma_deep_insert, Dup, OrdMap};
use crate::parser::rule::{
    copy_opt, join_tail, opt_text, output_part, output_section, parse_output_section, rule_result,
    CommandText, Rule, RuleCommand, RuleText,
};
use crate::text::{
    concat3, copy_str, copy_strings, same, split, split_words, str_first_is, str_split,
    str_strip_prefix, str_trim, str_trim_start_matches, strip_prefix, texts, trim,
    trim_start_matches, words,
};

verus! {

/// A bang macro definition.
///
/// Bang macros are rule templates defined as `!name = |> COMMAND |> OUTPUT`.
/// They are invoked in rules as `: inputs |> !name |> extra_outputs`.
#[derive(Debug)]
pub struct BangMacro {
    /// Macro name (without the `!` prefix).
    pub name: String,
    /// Whether this is a foreach macro.
    pub foreach: bool,
    /// Input pattern, for macros with inputs of their own.
    pub input: Option<String>,
    /// Command template.
    pub command: String,
    /// Output patterns.
    pub outputs: Vec<String>,
    /// Extra output patterns.
    pub extra_outputs: Vec<String>,
}

/// A bang macro as texts.
#[verifier::ext_equal]
pub struct BangText {
    pub name: Seq<char>,
    pub foreach: bool,
    pub input: Option<Seq<char>>,
    pub command: Seq<char>,
    pub outputs: Seq<Seq<char>>,
    pub extra_outputs: Seq<Seq<char>>,
}

impl View for BangMacro {
    type V = BangText;

    open spec fn view(&self) -> BangText {
        BangText {
            name: self.name@,
            foreach: self.foreach,
            input: opt_text(self.input),
            command: self.command@,
            outputs: texts(self.outputs@),
            extra_outputs: texts(self.extra_outputs@),
        }
    }
}

impl Clone for BangMacro {
    fn clone(&self) -> (r: Self)
        ensures
            r@ == self@,
    {
        BangMacro {
            name: self.name.clone(),
            foreach: self.foreach,
            input: copy_opt(&self.input),
            command: self.command.clone(),
            outputs: copy_strings(self.outputs.as_slice()),
            extra_outputs: copy_strings(self.extra_outputs.as_slice()),
        }
    }
}

impl Dup for BangMacro {
    fn dup(&self) -> (r: Self) {
        self.clone()
    }
}

/// Storage for bang macro definitions.
#[derive(Debug)]
pub struct BangDb {
    macros: OrdMap<String, BangMacro>,
}

impl View for BangDb {
    type V = Map<Seq<char>, BangText>;

    closed spec fn view(&self) -> Map<Seq<char>, BangText> {
        deep(self.macros@)
    }
}

impl Clone for BangDb {
    fn clone(&self) -> (r: Self)
        ensures
            r@ == self@,
    {
        BangDb { macros: self.macros.copy() }
    }
}

impl Default for BangDb {
    fn default() -> (r: Self)
        ensures
            r@ == Map::<Seq<char>, BangText>::empty(),
    {
        BangDb::new()
    }
}

/// `!`-macro names are kept without their leading `!`.
pub open spec fn bare_name(name: Seq<char>) -> Seq<char> {
    trim_start_matches(name, '!')
}

pub open spec fn unknown_macro(name: Seq<char>) -> Seq<char> {
    "unknown !-macro '!"@ + name + "'"@
}

/// A text, or nothing where it is empty.
pub open spec fn non_empty(s: Seq<char>) -> Option<Seq<char>> {
    if s.len() == 0 {
        None
    } else {
        Some(s)
    }
}

/// Whether a macro is a foreach macro, and its own inputs.
pub open spec fn macro_input(section: Seq<char>) -> (bool, Option<Seq<char>>) {
    if section == "foreach"@ {
        (true, None)
    } else {
        match strip_prefix(section, "foreach "@) {
            Some(rest) => (true, non_empty(trim(rest))),
            None => (false, non_empty(section)),
        }
    }
}

/// The macro that a definition gives to a name, among the macros known so far,
/// or the message that says why it gives none.
pub open spec fn macro_of(
    known: Map<Seq<char>, BangText>,
    name: Seq<char>,
    definition: Seq<char>,
) -> Result<BangText, Seq<char>> {
    let definition = trim(definition);
    if definition.len() > 0 && definition[0] == '!' {
        let other = bare_name(definition);
        if known.dom().contains(other) {
            Ok(BangText { name, ..known[other] })
        } else {
            Err(unknown_macro(other))
        }
    } else {
        let parts = split(definition, "|>"@);
        if parts.len() < 3 {
            Err("bang macro must have at least 3 sections separated by |>"@)
        } else {
            let (foreach, input) = macro_input(trim(parts[0]));
            let (outputs, extra_outputs) = output_section(output_part(parts));
            Ok(
                BangText {
                    name,
                    foreach,
                    input,
                    command: trim(parts[1]),
                    outputs,
                    extra_outputs,
                },
            )
        }
    }
}

/// The macros after a definition. A definition that fails changes none.
pub open spec fn define_macro(
    known: Map<Seq<char>, BangText>,
    name: Seq<char>,
    definition: Seq<char>,
) -> Map<Seq<char>, BangText> {
    let name = bare_name(trim(name));
    match macro_of(known, name, definition) {
        Ok(m) => known.insert(name, m),
        Err(_) => known,
    }
}

/// A name without its leading `!` has none.
proof fn lemma_bare_name(name: Seq<char>)
    ensures
        bare_name(bare_name(name)) == bare_name(name),
    decreases name.len(),
{
    if name.len() > 0 && name[0] == '!' {
        lemma_bare_name(name.drop_first());
    }
}

/// After a definition its macro is known under its name, and every other macro as
/// before. There is one macro more if the name was new.
pub proof fn a_definition_adds_its_macro(
    known: Map<Seq<char>, BangText>,
    name: Seq<char>,
    definition: Seq<char>,
)
    requires
        known.dom().finite(),
        macro_of(known, bare_name(trim(name)), definition) is Ok,
    ensures
        ({
            let key = bare_name(trim(name));
            let after = define_macro(known, name, definition);
            &&& bare_name(key) == key
            &&& after.dom().contains(key)
            &&& after[key].name == key
            &&& Ok::<BangText, Seq<char>>(after[key]) == macro_of(known, key, definition)
            &&& forall|k: Seq<char>|
                k != key ==> (#[trigger] after.dom().contains(k) <==> known.dom().contains(k))
            &&& forall|k: Seq<char>|
                k != key && #[trigger] after.dom().contains(k) ==> after[k] == known[k]
            &&& after.dom().finite()
            &&& after.dom().len() == known.dom().len() + (if known.dom().contains(key) {
                0nat
            } else {
                1
            })
        }),
{
    let key = bare_name(trim(name));
    let after = define_macro(known, name, definition);
    lemma_bare_name(trim(name));
    assert(after.dom() =~= known.dom().insert(key));
}

/// The rule that an invocation of a macro stands for: the rule's inputs and
/// outputs, where it has any, take the place of the macro's.
pub open spec fn macro_rule(
    known: Map<Seq<char>, BangText>,
    macro_name: Seq<char>,
    rule_inputs: Seq<Seq<char>>,
    rule_outputs: Seq<Seq<char>>,
    rule_foreach: bool,
    line_number: usize,
) -> Result<RuleText, Seq<char>> {
    let name = bare_name(macro_name);
    if !known.dom().contains(name) {
        Err(unknown_macro(macro_name))
    } else {
        let mac = known[name];
        let inputs = if rule_inputs.len() != 0 {
            rule_inputs
        } else {
            match mac.input {
                Some(i) => words(i),
                None => Seq::empty(),
            }
        };
        let outputs = if rule_outputs.len() != 0 {
            rule_outputs
        } else {
            mac.outputs
        };
        Ok(
            RuleText {
                foreach: rule_foreach || mac.foreach,
                inputs,
                order_only_inputs: Seq::empty(),
                command: CommandText { display: None, flags: None, command: mac.command },
                outputs,
                extra_outputs: mac.extra_outputs,
                line_number,
                had_inputs: inputs.len() != 0,
                vars_snapshot: None,
                bin: None,
            },
        )
    }
}

fn some_text(s: &str) -> (r: Option<String>)
    ensures
        opt_text(r) == non_empty(s@),
{
    if s.is_empty() {
        None
    } else {
        Some(copy_str(s))
    }
}

fn parse_macro_input(section: &str) -> (r: (bool, Option<String>))
    ensures
        (r.0, opt_text(r.1)) == macro_input(section@),
{
    if same(section, "foreach") {
        (true, None)
    } else {
        match str_strip_prefix(section, "foreach ") {
            Some(rest) => (true, some_text(str_trim(rest))),
            None => (false, some_text(section)),
        }
    }
}

impl BangDb {
    pub fn new() -> (r: Self)
        ensures
            r@ == Map::<Seq<char>, BangText>::empty(),
    {
        let r = BangDb { macros: OrdMap::new() };
        assert(r@ =~= Map::empty());
        r
    }

    fn put(&mut self, name: &str, m: BangMacro)
        ensures
            final(self)@ == old(self)@.insert(name@, m@),
    {
        proof {
            lemma_deep_insert(self.macros@, name@, m);
        }
        self.macros.insert(copy_str(name), m);
    }

    /// Defines a bang macro from its definition string.
    ///
    /// Format: `[foreach] [INPUT] |> COMMAND |> OUTPUT [| EXTRA]`, or the name
    /// `!other` of a macro, which becomes an alias of it.
    pub fn define(&mut self, name: &str, definition: &str) -> (r: Result<(), String>)
        ensures
            final(self)@ == define_macro(old(self)@, name@, definition@),
            match (r, macro_of(old(self)@, bare_name(trim(name@)), definition@)) {
                (Ok(()), Ok(_)) => true,
                (Err(m), Err(e)) => m@ == e,
                _ => false,
            },
    {
        let name = str_trim_start_matches(str_trim(name), '!');
        let definition = str_trim(definition);
        if str_first_is(definition, '!') {
            let other_name = str_trim_start_matches(definition, '!');
            let other = match self.macros.get(&copy_str(other_name)) {
                Some(m) => m.clone(),
                None => {
                    return Err(concat3("unknown !-macro '!", other_name, "'"));
                },
            };
            let m = BangMacro {
                name: copy_str(name),
                foreach: other.foreach,
                input: other.input,
                command: other.command,
                outputs: other.outputs,
                extra_outputs: other.extra_outputs,
            };
            self.put(name, m);
            return Ok(());
        }
        proof {
            reveal_strlit("|>");
        }
        let parts = str_split(definition, "|>");
        assert(texts(parts@).len() == parts@.len());
        if parts.len() < 3 {
            return Err(copy_str("bang macro must have at least 3 sections separated by |>"));
        }
        let (foreach, input) = parse_macro_input(str_trim(parts[0].as_str()));
        let command = copy_str(str_trim(parts[1].as_str()));
        let output_text = join_tail(&parts);
        let (outputs, extra_outputs) = parse_output_section(output_text.as_str());
        let m = BangMacro {
            name: copy_str(name),
            foreach,
            input,
            command,
            outputs,
            extra_outputs,
        };
        self.put(name, m);
        Ok(())
    }

    /// Looks up a bang macro by name, with or without the leading `!`.
    pub fn get(&self, name: &str) -> (r: Option<&BangMacro>)
        ensures
            match r {
                Some(m) => self@.dom().contains(bare_name(name@)) && self@[bare_name(name@)] == m@,
                None => !self@.dom().contains(bare_name(name@)),
            },
    {
        self.macros.get(&copy_str(str_trim_start_matches(name, '!')))
    }

    /// Expands a bang macro invocation into a rule.
    ///
    /// A rule like `: inputs |> !cc |> outputs` takes its command and extra
    /// outputs from `!cc`, and its inputs and outputs where it has none.
    pub fn expand_rule(
        &self,
        macro_name: &str,
        rule_inputs: &[String],
        rule_outputs: &[String],
        rule_foreach: bool,
        line_number: usize,
    ) -> (r: Result<Rule, String>)
        ensures
            rule_result(
                r,
                macro_rule(
                    self@,
                    macro_name@,
                    texts(rule_inputs@),
                    texts(rule_outputs@),
                    rule_foreach,
                    line_number,
                ),
            ),
    {
        let mac = match self.get(macro_name) {
            Some(m) => m,
            None => {
                return Err(concat3("unknown !-macro '!", macro_name, "'"));
            },
        };
        assert(texts(Seq::<String>::empty()) =~= Seq::<Seq<char>>::empty());
        let inputs: Vec<String> = if rule_inputs.len() != 0 {
            copy_strings(rule_inputs)
        } else {
            match &mac.input {
                Some(i) => split_words(i.as_str()),
                None => Vec::new(),
            }
        };
        let outputs: Vec<String> = if rule_outputs.len() != 0 {
            copy_strings(rule_outputs)
        } else {
            copy_strings(mac.outputs.as_slice())
        };
        let had_inputs = inputs.len() != 0;
        assert(texts(inputs@).len() == inputs@.len());
        Ok(
            Rule {
                foreach: rule_foreach || mac.foreach,
                inputs,
                order_only_inputs: Vec::new(),
                command: RuleCommand {
                    display: None,
                    flags: None,
                    command: mac.command.clone(),
                },
                outputs,
                extra_outputs: copy_strings(mac.extra_outputs.as_slice()),
                line_number,
                had_inputs,
                vars_snapshot: None,
                bin: None,
            },
        )
    }

    /// The number of defined macros.
    pub fn len(&self) -> (r: usize)
        ensures
            self@.dom().finite(),
            r == self@.dom().len(),
    {
        assert(self@.dom() =~= self.macros@.dom());
        self.macros.len()
    }

    /// Whether no macros are defined.
    pub fn is_empty(&self) -> (r: bool)
        ensures
            r == (self@ == Map::<Seq<char>, BangText>::empty()),
    {
        assert(self@.dom() =~= self.macros@.dom());
        let n = self.macros.len();
        proof {
            if n == 0 {
                assert(self@.dom() =~= Set::empty());
                assert(self@ =~= Map::empty());
            }
        }
        n == 0
    }
}

} // verus!
