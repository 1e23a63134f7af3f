//! Variables of a Tupfile and their expansion.
use vstd::prelude::*;

use crate::ordmap::{deep, lemma_deep_insert, OrdMap};
use crate::text::{copy_str, str_slice, to_chars};

verus! {

/// Variable database for the parser.
///
/// Handles variable assignment (`VAR = value`), append (`VAR += value`), and
/// expansion (`$(VAR)`, and `@(VAR)` for variables of `tup.config`).
#[derive(Debug)]
pub struct ParseVarDb {
    vars: OrdMap<String, String>,
    /// Variables from `tup.config`, expanded via `@(VAR)`.
    config_vars: OrdMap<String, String>,
}

/// The two families of variables, by name.
#[verifier::ext_equal]
pub struct VarTables {
    pub vars: Map<Seq<char>, Seq<char>>,
    pub config: Map<Seq<char>, Seq<char>>,
}

/// The value of a name, empty where it has none.
pub open spec fn lookup(m: Map<Seq<char>, Seq<char>>, name: Seq<char>) -> Seq<char> {
    if m.dom().contains(name) {
        m[name]
    } else {
        Seq::empty()
    }
}

impl VarTables {
    pub open spec fn empty() -> VarTables {
        VarTables { vars: Map::empty(), config: Map::empty() }
    }

    pub open spec fn set(self, name: Seq<char>, value: Seq<char>) -> VarTables {
        VarTables { vars: self.vars.insert(name, value), config: self.config }
    }

    /// A name without a value takes the new one; an empty value is replaced;
    /// otherwise the new value follows the old one after a space.
    pub open spec fn append(self, name: Seq<char>, value: Seq<char>) -> VarTables {
        let old = lookup(self.vars, name);
        self.set(
            name,
            if old.len() == 0 {
                value
            } else {
                old.push(' ') + value
            },
        )
    }

    pub open spec fn set_config(self, name: Seq<char>, value: Seq<char>) -> VarTables {
        VarTables { vars: self.vars, config: self.config.insert(name, value) }
    }

    pub open spec fn get(self, name: Seq<char>) -> Option<Seq<char>> {
        if self.vars.dom().contains(name) {
            Some(self.vars[name])
        } else {
            None
        }
    }

    pub open spec fn get_config(self, name: Seq<char>) -> Option<Seq<char>> {
        if self.config.dom().contains(name) {
            Some(self.config[name])
        } else {
            None
        }
    }

    /// The text with its variable references replaced by their values.
    pub open spec fn expand(self, s: Seq<char>) -> Seq<char>
        decreases s.len(),
    {
        if s.len() == 0 {
            Seq::empty()
        } else if s.len() >= 2 && s[0] == '\\' && s[1] == '$' {
            if s.len() >= 3 && s[2] == '(' {
                seq!['$'] + self.expand(s.skip(2))
            } else {
                seq!['\\'] + self.expand(s.skip(1))
            }
        } else if s.len() >= 2 && s[0] == '$' && s[1] == '(' {
            let body = s.skip(2);
            let n = closing_paren(body, 1);
            lookup(self.vars, body.take(n)) + self.expand(past(body, n))
        } else if s.len() >= 2 && s[0] == '@' && s[1] == '(' {
            let body = s.skip(2);
            let n = first_paren(body);
            lookup(self.config, body.take(n)) + self.expand(past(body, n))
        } else {
            seq![s[0]] + self.expand(s.skip(1))
        }
    }
}

/// The number of characters before the `)` that closes `depth` open
/// parentheses, or of all of them where none does.
pub open spec fn closing_paren(s: Seq<char>, depth: nat) -> int
    decreases s.len(),
{
    if s.len() == 0 {
        0
    } else if s[0] == '(' {
        1 + closing_paren(s.drop_first(), depth + 1)
    } else if s[0] == ')' && depth <= 1 {
        0
    } else if s[0] == ')' {
        1 + closing_paren(s.drop_first(), (depth - 1) as nat)
    } else {
        1 + closing_paren(s.drop_first(), depth)
    }
}

/// The number of characters before the first `)`, or of all of them.
pub open spec fn first_paren(s: Seq<char>) -> int
    decreases s.len(),
{
    if s.len() == 0 || s[0] == ')' {
        0
    } else {
        1 + first_paren(s.drop_first())
    }
}

/// What follows the character at `n`.
pub open spec fn past(s: Seq<char>, n: int) -> Seq<char> {
    if 0 <= n < s.len() {
        s.skip(n + 1)
    } else {
        Seq::empty()
    }
}

fn find_closing_paren(v: &Vec<char>, from: usize) -> (r: usize)
    requires
        1 <= from <= v@.len(),
    ensures
        from <= r <= v@.len(),
        r - from == closing_paren(v@.skip(from as int), 1),
{
    let mut i: usize = from;
    let mut depth: usize = 1;
    while i < v.len()
        invariant
            1 <= from <= i <= v.len(),
            1 <= depth <= 1 + (i - from),
            closing_paren(v@.skip(from as int), 1) == (i - from) + closing_paren(
                v@.skip(i as int),
                depth as nat,
            ),
        decreases v.len() - i,
    {
        assert(v@.skip(i as int).drop_first() =~= v@.skip(i + 1));
        if v[i] == '(' {
            depth += 1;
        } else if v[i] == ')' {
            if depth == 1 {
                return i;
            }
            depth -= 1;
        }
        i += 1;
    }
    i
}

fn find_first_paren(v: &Vec<char>, from: usize) -> (r: usize)
    requires
        from <= v@.len(),
    ensures
        from <= r <= v@.len(),
        r - from == first_paren(v@.skip(from as int)),
{
    let mut i: usize = from;
    while i < v.len() && v[i] != ')'
        invariant
            from <= i <= v.len(),
            first_paren(v@.skip(from as int)) == (i - from) + first_paren(v@.skip(i as int)),
        decreases v.len() - i,
    {
        assert(v@.skip(i as int).drop_first() =~= v@.skip(i + 1));
        i += 1;
    }
    i
}

impl View for ParseVarDb {
    type V = VarTables;

    closed spec fn view(&self) -> VarTables {
        VarTables { vars: deep(self.vars@), config: deep(self.config_vars@) }
    }
}

impl Clone for ParseVarDb {
    fn clone(&self) -> (r: Self)
        ensures
            r@ == self@,
    {
        ParseVarDb { vars: self.vars.copy(), config_vars: self.config_vars.copy() }
    }
}

impl Default for ParseVarDb {
    fn default() -> (r: Self)
        ensures
            r@ == VarTables::empty(),
    {
        ParseVarDb::new()
    }
}

impl ParseVarDb {
    pub fn new() -> (r: Self)
        ensures
            r@ == VarTables::empty(),
    {
        let r = ParseVarDb { vars: OrdMap::new(), config_vars: OrdMap::new() };
        assert(r@ =~= VarTables::empty());
        r
    }

    /// The variables of a map.
    pub fn from_vars(vars: &OrdMap<String, String>) -> (r: Self)
        ensures
            r@ == (VarTables { vars: deep(vars@), config: Map::empty() }),
    {
        let r = ParseVarDb { vars: vars.copy(), config_vars: OrdMap::new() };
        assert(r@.config =~= Map::empty());
        r
    }

    /// Sets a variable, replacing its value.
    pub fn set(&mut self, name: &str, value: &str)
        ensures
            final(self)@ == old(self)@.set(name@, value@),
    {
        let v = copy_str(value);
        proof {
            lemma_deep_insert(self.vars@, name@, v);
        }
        self.vars.insert(copy_str(name), v);
    }

    /// Appends to a variable, after a space.
    pub fn append(&mut self, name: &str, value: &str)
        ensures
            final(self)@ == old(self)@.append(name@, value@),
    {
        let key = copy_str(name);
        let v = match self.vars.get(&key) {
            Some(existing) => {
                let mut s = existing.clone();
                if !s.as_str().is_empty() {
                    s.push(' ');
                } else {
                    assert(s@ + value@ =~= value@);
                }
                s.append(value);
                s
            },
            None => copy_str(value),
        };
        proof {
            lemma_deep_insert(self.vars@, name@, v);
        }
        self.vars.insert(key, v);
    }

    /// The value of a variable.
    pub fn get(&self, name: &str) -> (r: Option<&str>)
        ensures
            match r {
                Some(v) => self@.get(name@) == Some(v@),
                None => self@.get(name@) is None,
            },
    {
        match self.vars.get(&copy_str(name)) {
            Some(v) => Some(v.as_str()),
            None => None,
        }
    }

    /// Sets a variable of `tup.config`.
    pub fn set_config(&mut self, name: &str, value: &str)
        ensures
            final(self)@ == old(self)@.set_config(name@, value@),
    {
        let v = copy_str(value);
        proof {
            lemma_deep_insert(self.config_vars@, name@, v);
        }
        self.config_vars.insert(copy_str(name), v);
    }

    /// The value of a variable of `tup.config`.
    pub fn get_config(&self, name: &str) -> (r: Option<&str>)
        ensures
            match r {
                Some(v) => self@.get_config(name@) == Some(v@),
                None => self@.get_config(name@) is None,
            },
    {
        match self.config_vars.get(&copy_str(name)) {
            Some(v) => Some(v.as_str()),
            None => None,
        }
    }

    /// All variables of `tup.config`, in the order of their names.
    pub fn config_vars(&self) -> (r: &OrdMap<String, String>)
        ensures
            deep(r@) == self@.config,
    {
        &self.config_vars
    }

    /// Expands all `$(VAR)` and `@(VAR)` references in a string.
    ///
    /// Unknown variables expand to nothing. `\$(` gives `$(` and is not
    /// expanded; any other `\$` stays as it is.
    pub fn expand(&self, input: &str) -> (r: String)
        ensures
            r@ == self@.expand(input@),
    {
        let v = to_chars(input);
        let mut out = String::new();
        let mut i: usize = 0;
        let ghost t = self@;
        let ghost s = input@;
        proof {
            assert(s.skip(0) =~= s);
            assert(out@ + t.expand(s) =~= t.expand(s));
        }
        while i < v.len()
            invariant
                i <= v.len(),
                v@ == s,
                s == input@,
                t == self@,
                t.expand(s) == out@ + t.expand(s.skip(i as int)),
            decreases v.len() - i,
        {
            let ghost rest = s.skip(i as int);
            let ghost done = out@;
            let n: usize = v.len();
            if n - i >= 2 && v[i] == '\\' && v[i + 1] == '$' {
                if n - i >= 3 && v[i + 2] == '(' {
                    out.push('$');
                    i += 2;
                    assert(rest.skip(2) =~= s.skip(i as int));
                    assert(out@ + t.expand(rest.skip(2)) =~= done + (seq!['$'] + t.expand(
                        rest.skip(2),
                    )));
                } else {
                    out.push('\\');
                    i += 1;
                    assert(rest.skip(1) =~= s.skip(i as int));
                    assert(out@ + t.expand(rest.skip(1)) =~= done + (seq!['\\'] + t.expand(
                        rest.skip(1),
                    )));
                }
            } else if n - i >= 2 && v[i] == '$' && v[i + 1] == '(' {
                let end = find_closing_paren(&v, i + 2);
                let name = str_slice(input, i + 2, end);
                let ghost body = rest.skip(2);
                proof {
                    assert(body =~= s.skip(i + 2));
                    assert(name@ =~= body.take(closing_paren(body, 1)));
                }
                let ghost value = lookup(t.vars, name@);
                match self.vars.get(&copy_str(name)) {
                    Some(w) => {
                        out.append(w.as_str());
                    },
                    None => {
                        assert(done + value =~= done);
                    },
                }
                i = if end < n {
                    end + 1
                } else {
                    end
                };
                assert(past(body, closing_paren(body, 1)) =~= s.skip(i as int));
                assert((done + value) + t.expand(s.skip(i as int)) =~= done + (value + t.expand(
                    s.skip(i as int),
                )));
            } else if n - i >= 2 && v[i] == '@' && v[i + 1] == '(' {
                let end = find_first_paren(&v, i + 2);
                let name = str_slice(input, i + 2, end);
                let ghost body = rest.skip(2);
                proof {
                    assert(body =~= s.skip(i + 2));
                    assert(name@ =~= body.take(first_paren(body)));
                }
                let ghost value = lookup(t.config, name@);
                match self.config_vars.get(&copy_str(name)) {
                    Some(w) => {
                        out.append(w.as_str());
                    },
                    None => {
                        assert(done + value =~= done);
                    },
                }
                i = if end < n {
                    end + 1
                } else {
                    end
                };
                assert(past(body, first_paren(body)) =~= s.skip(i as int));
                assert((done + value) + t.expand(s.skip(i as int)) =~= done + (value + t.expand(
                    s.skip(i as int),
                )));
            } else {
                out.push(v[i]);
                i += 1;
                assert(rest.skip(1) =~= s.skip(i as int));
                assert(out@ + t.expand(rest.skip(1)) =~= done + (seq![rest[0]] + t.expand(
                    rest.skip(1),
                )));
            }
        }
        assert(s.skip(v@.len() as int) =~= Seq::empty());
        assert(out@ + Seq::<char>::empty() =~= out@);
        out
    }
}

/// A variable that was set has its value, and the others have theirs.
pub proof fn a_variable_is_read_back(t: VarTables, name: Seq<char>, value: Seq<char>)
    ensures
        t.set(name, value).get(name) == Some(value),
        forall|other: Seq<char>|
            other != name ==> #[trigger] t.set(name, value).get(other) == t.get(other),
        t.set(name, value).config == t.config,
{
}

/// What is appended to a variable follows its value after a space, or is its
/// value where it had none.
pub proof fn an_appended_value_follows(
    t: VarTables,
    name: Seq<char>,
    first: Seq<char>,
    second: Seq<char>,
)
    ensures
        t.set(name, first).append(name, second).get(name) == Some(
            if first.len() == 0 {
                second
            } else {
                first.push(' ') + second
            },
        ),
        t.get(name) is None ==> t.append(name, first) == t.set(name, first),
{
}

/// A text without references stays as it is. A lone `$` or `@` is no reference.
pub proof fn plain_text_stays(t: VarTables, s: Seq<char>)
    requires
        forall|i: int|
            0 <= i < s.len() - 1 && s[i + 1] == '(' ==> #[trigger] s[i] != '$' && s[i] != '@',
    ensures
        t.expand(s) == s,
    decreases s.len(),
{
    if s.len() > 0 {
        let rest = s.skip(1);
        assert forall|i: int| 0 <= i < rest.len() - 1 && rest[i + 1] == '(' implies #[trigger] rest[i]
            != '$' && rest[i] != '@' by {
            assert(rest[i] == s[i + 1]);
            assert(s[i + 1 + 1] == '(');
        }
        if s.len() >= 3 {
            assert(s[1] == '$' ==> s[2] != '(');
        }
        if s.len() >= 2 {
            assert(s[0] == '$' || s[0] == '@' ==> s[1] != '(');
        }
        plain_text_stays(t, rest);
        assert(seq![s[0]] + rest =~= s);
    } else {
        assert(s =~= Seq::empty());
    }
}

proof fn lemma_closing(name: Seq<char>)
    requires
        !name.contains('('),
        !name.contains(')'),
    ensures
        closing_paren(name + seq![')'], 1) == name.len(),
    decreases name.len(),
{
    let s = name + seq![')'];
    if name.len() > 0 {
        let rest = name.drop_first();
        assert forall|c: char| rest.contains(c) implies name.contains(c) by {
            let i = choose|i: int| 0 <= i < rest.len() && rest[i] == c;
            assert(name[i + 1] == c);
        }
        assert(name.contains(name[0]));
        assert(s[0] == name[0]);
        assert(s.drop_first() =~= rest + seq![')']);
        lemma_closing(rest);
    } else {
        assert(s[0] == ')');
    }
}

/// A reference to a variable gives its value, and nothing where it has none.
pub proof fn a_reference_gives_the_value(t: VarTables, name: Seq<char>)
    requires
        !name.contains('('),
        !name.contains(')'),
    ensures
        t.expand(seq!['$', '('] + name + seq![')']) == lookup(t.vars, name),
{
    let s = seq!['$', '('] + name + seq![')'];
    let body = s.skip(2);
    assert(body =~= name + seq![')']);
    lemma_closing(name);
    assert(body.take(name.len() as int) =~= name);
    assert(past(body, name.len() as int) =~= Seq::empty());
    assert(t.expand(Seq::empty()) =~= Seq::empty());
    assert(lookup(t.vars, name) + Seq::<char>::empty() =~= lookup(t.vars, name));
}

proof fn lemma_first_paren(name: Seq<char>)
    requires
        !name.contains(')'),
    ensures
        first_paren(name + seq![')']) == name.len(),
    decreases name.len(),
{
    let s = name + seq![')'];
    if name.len() > 0 {
        let rest = name.drop_first();
        assert forall|c: char| rest.contains(c) implies name.contains(c) by {
            let i = choose|i: int| 0 <= i < rest.len() && rest[i] == c;
            assert(name[i + 1] == c);
        }
        assert(name.contains(name[0]));
        assert(s[0] == name[0]);
        assert(s.drop_first() =~= rest + seq![')']);
        lemma_first_paren(rest);
    } else {
        assert(s[0] == ')');
    }
}

/// A reference to a variable of the configuration gives its value, and nothing
/// where it has none.
pub proof fn a_config_reference_gives_the_value(t: VarTables, name: Seq<char>)
    requires
        !name.contains(')'),
    ensures
        t.expand(seq!['@', '('] + name + seq![')']) == lookup(t.config, name),
{
    let s = seq!['@', '('] + name + seq![')'];
    let body = s.skip(2);
    assert(body =~= name + seq![')']);
    lemma_first_paren(name);
    assert(body.take(name.len() as int) =~= name);
    assert(past(body, name.len() as int) =~= Seq::empty());
    assert(t.expand(Seq::empty()) =~= Seq::empty());
    assert(lookup(t.config, name) + Seq::<char>::empty() =~= lookup(t.config, name));
}

} // verus!
