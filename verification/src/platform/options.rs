//! Options of a project.
use vstd::prelude::*;

use crate::numbers::{int_of, parse_i32, IntError};
use crate::ordmap::{deep, lemma_deep_insert, OrdMap};
use crate::text::{
    concat3, copy_str, find_char, lines, same, str_find_char, str_first_is, str_last_is, str_lines,
    str_skip, str_slice, str_take, str_trim, texts, trim,
};
use crate::types::{nat_text, u64_to_string};

verus! {

/// The options and what they are where nothing sets them. An empty text stands
/// for what only the machine can tell.
pub open spec fn option_defaults() -> Seq<(Seq<char>, Seq<char>)> {
    seq![
        ("updater.num_jobs"@, ""@),
        ("updater.keep_going"@, "0"@),
        ("updater.full_deps"@, "0"@),
        ("updater.warnings"@, "1"@),
        ("display.color"@, "auto"@),
        ("display.width"@, ""@),
        ("display.progress"@, ""@),
        ("display.job_numbers"@, "1"@),
        ("display.job_time"@, "1"@),
        ("display.quiet"@, "0"@),
        ("monitor.autoupdate"@, "0"@),
        ("monitor.autoparse"@, "0"@),
        ("monitor.foreground"@, "0"@),
        ("db.sync"@, "1"@),
        ("graph.dirs"@, "0"@),
        ("graph.ghosts"@, "0"@),
        ("graph.environment"@, "0"@),
        ("graph.combine"@, "0"@),
    ]
}

pub open spec fn pair_texts(v: Seq<(&str, &str)>) -> Seq<(Seq<char>, Seq<char>)> {
    Seq::new(v.len(), |i: int| (v[i].0@, v[i].1@))
}

fn defaults() -> (r: Vec<(&'static str, &'static str)>)
    ensures
        pair_texts(r@) == option_defaults(),
{
    let r = vec![
        ("updater.num_jobs", ""),
        ("updater.keep_going", "0"),
        ("updater.full_deps", "0"),
        ("updater.warnings", "1"),
        ("display.color", "auto"),
        ("display.width", ""),
        ("display.progress", ""),
        ("display.job_numbers", "1"),
        ("display.job_time", "1"),
        ("display.quiet", "0"),
        ("monitor.autoupdate", "0"),
        ("monitor.autoparse", "0"),
        ("monitor.foreground", "0"),
        ("db.sync", "1"),
        ("graph.dirs", "0"),
        ("graph.ghosts", "0"),
        ("graph.environment", "0"),
        ("graph.combine", "0"),
    ];
    assert(pair_texts(r@) =~= option_defaults());
    r
}

/// Where the options of a project stand.
pub const TUP_OPTIONS_FILE: &'static str = ".tup/options";

/// The defaults that are not empty.
pub open spec fn fixed_defaults(d: Seq<(Seq<char>, Seq<char>)>) -> Map<Seq<char>, Seq<char>>
    decreases d.len(),
{
    if d.len() == 0 {
        Map::empty()
    } else {
        let before = fixed_defaults(d.drop_last());
        if d.last().1.len() == 0 {
            before
        } else {
            before.insert(d.last().0, d.last().1)
        }
    }
}

/// What the options are on a machine with a number of processors where nothing
/// sets them.
pub open spec fn initial_options(cpus: nat) -> Map<Seq<char>, Seq<char>> {
    let fixed = fixed_defaults(option_defaults());
    if fixed.dom().contains("updater.num_jobs"@) {
        fixed
    } else {
        fixed.insert("updater.num_jobs"@, nat_text(cpus))
    }
}

/// Whether there is an option of a name.
pub open spec fn is_option(name: Seq<char>) -> bool {
    exists|i: int|
        0 <= i < option_defaults().len() && (#[trigger] option_defaults()[i]).0 == name
}

/// Whether there is an option of a name.
pub fn is_valid_option(name: &str) -> (r: bool)
    ensures
        r == is_option(name@),
{
    let all = defaults();
    let ghost d = option_defaults();
    let mut i: usize = 0;
    while i < all.len()
        invariant
            i <= all.len(),
            d == pair_texts(all@),
            d == option_defaults(),
            forall|j: int| 0 <= j < i ==> (#[trigger] d[j]).0 != name@,
        decreases all.len() - i,
    {
        assert(d[i as int].0 == all@[i as int].0@);
        if same(all[i].0, name) {
            return true;
        }
        i += 1;
    }
    assert(d.len() == all@.len());
    false
}

/// The state of reading options: the section, and what the options are.
#[verifier::ext_equal]
pub struct IniState {
    pub section: Seq<char>,
    pub values: Map<Seq<char>, Seq<char>>,
}

impl IniState {
    /// A line is read. Empty lines and comments change nothing, a name in
    /// brackets begins a section, and a known option gets a value.
    pub open spec fn line(self, line: Seq<char>) -> IniState {
        let line = trim(line);
        if line.len() == 0 || line[0] == '#' || line[0] == ';' {
            self
        } else if line[0] == '[' && line.last() == ']' {
            IniState { section: line.subrange(1, line.len() - 1), ..self }
        } else {
            match find_char(line, '=') {
                None => self,
                Some(k) => {
                    let key = trim(line.take(k));
                    let name = if self.section.len() == 0 {
                        key
                    } else {
                        self.section + "."@ + key
                    };
                    if is_option(name) {
                        IniState {
                            values: self.values.insert(name, trim(line.skip(k + 1))),
                            ..self
                        }
                    } else {
                        self
                    }
                },
            }
        }
    }

    /// Lines are read, one after the other.
    pub open spec fn all(self, lines: Seq<Seq<char>>) -> IniState
        decreases lines.len(),
    {
        if lines.len() == 0 {
            self
        } else {
            self.all(lines.drop_last()).line(lines.last())
        }
    }
}

/// The options of a project.
#[derive(Debug)]
pub struct TupOptions {
    values: OrdMap<String, String>,
}

impl View for TupOptions {
    type V = Map<Seq<char>, Seq<char>>;

    closed spec fn view(&self) -> Map<Seq<char>, Seq<char>> {
        deep(self.values@)
    }
}

/// What options are shown: all that there are, in their order.
pub open spec fn shown(values: Map<Seq<char>, Seq<char>>) -> Seq<(Seq<char>, Seq<char>)> {
    Seq::new(
        option_defaults().len(),
        |i: int|
            {
                let name = option_defaults()[i].0;
                (
                    name,
                    if values.dom().contains(name) {
                        values[name]
                    } else {
                        "(unset)"@
                    },
                )
            },
    )
}

pub open spec fn string_pairs(v: Seq<(String, String)>) -> Seq<(Seq<char>, Seq<char>)> {
    Seq::new(v.len(), |i: int| (v[i].0@, v[i].1@))
}

impl TupOptions {
    /// The options on a machine with a number of processors where nothing sets
    /// them.
    pub fn new(cpus: usize) -> (r: Self)
        ensures
            r@ == initial_options(cpus as nat),
    {
        let all = defaults();
        let ghost d = option_defaults();
        let mut values: OrdMap<String, String> = OrdMap::new();
        let mut i: usize = 0;
        proof {
            assert(d.take(0) =~= Seq::empty());
            assert(deep(values@) =~= Map::<Seq<char>, Seq<char>>::empty());
        }
        while i < all.len()
            invariant
                i <= all.len(),
                d == pair_texts(all@),
                deep(values@) == fixed_defaults(d.take(i as int)),
            decreases all.len() - i,
        {
            proof {
                assert(d.take(i + 1).drop_last() =~= d.take(i as int));
                assert(d.take(i + 1).last() == (all@[i as int].0@, all@[i as int].1@));
            }
            if all[i].1.unicode_len() > 0 {
                let v = copy_str(all[i].1);
                proof {
                    lemma_deep_insert(values@, all@[i as int].0@, v);
                }
                values.insert(copy_str(all[i].0), v);
            }
            i += 1;
        }
        assert(d.take(d.len() as int) =~= d);
        let mut r = TupOptions { values };
        if r.get_string("updater.num_jobs").is_none() {
            let n = u64_to_string(cpus as u64);
            r.set("updater.num_jobs", n.as_str());
        }
        r
    }

    /// Reads the content of a file of options.
    pub fn parse_ini(&mut self, content: &str)
        ensures
            final(self)@ == (IniState { section: Seq::empty(), values: old(self)@ }).all(
                lines(content@),
            ).values,
    {
        let all = str_lines(content);
        let ghost whole = texts(all@);
        let ghost start = IniState { section: Seq::empty(), values: self@ };
        let mut section = String::new();
        let mut i: usize = 0;
        proof {
            assert(whole.take(0) =~= Seq::empty());
            assert(section@ =~= Seq::<char>::empty());
        }
        while i < all.len()
            invariant
                i <= all.len(),
                whole == texts(all@),
                start == (IniState { section: Seq::empty(), values: old(self)@ }),
                start.all(whole.take(i as int)) == (IniState {
                    section: section@,
                    values: self@,
                }),
            decreases all.len() - i,
        {
            proof {
                assert(whole.take(i + 1).drop_last() =~= whole.take(i as int));
                assert(whole.take(i + 1).last() == all@[i as int]@);
            }
            let line = str_trim(all[i].as_str());
            if line.unicode_len() == 0 || str_first_is(line, '#') || str_first_is(line, ';') {
            } else if str_first_is(line, '[') && str_last_is(line, ']') {
                section = copy_str(str_slice(line, 1, line.unicode_len() - 1));
            } else {
                match str_find_char(line, '=') {
                    Some(k) => {
                        let key = str_trim(str_take(line, k));
                        let value = str_trim(str_skip(line, k + 1));
                        let name = if section.as_str().unicode_len() == 0 {
                            copy_str(key)
                        } else {
                            concat3(section.as_str(), ".", key)
                        };
                        if is_valid_option(name.as_str()) {
                            self.set(name.as_str(), value);
                        }
                    },
                    None => {},
                }
            }
            i += 1;
        }
        assert(whole.take(whole.len() as int) =~= whole);
    }

    /// Sets an option, whether it is known or not.
    pub fn set(&mut self, name: &str, value: &str)
        ensures
            final(self)@ == old(self)@.insert(name@, value@),
    {
        let v = copy_str(value);
        proof {
            lemma_deep_insert(self.values@, name@, v);
        }
        self.values.insert(copy_str(name), v);
    }

    /// The value of an option.
    pub fn get_string(&self, name: &str) -> (r: Option<&str>)
        ensures
            match r {
                Some(v) => self@.dom().contains(name@) && self@[name@] == v@,
                None => !self@.dom().contains(name@),
            },
    {
        match self.values.get(&copy_str(name)) {
            Some(v) => {
                assert(self@.dom().contains(name@));
                Some(v.as_str())
            },
            None => None,
        }
    }

    /// The value of an option as a number.
    pub fn get_int(&self, name: &str) -> (r: Option<i32>)
        ensures
            match r {
                Some(n) => self@.dom().contains(name@) && int_of(self@[name@]) == Ok::<
                    int,
                    IntError,
                >(n as int),
                None => self@.dom().contains(name@) ==> int_of(self@[name@]) is Err,
            },
    {
        match self.get_string(name) {
            Some(v) => match parse_i32(v) {
                Ok(n) => Some(n),
                Err(_) => None,
            },
            None => None,
        }
    }

    /// Whether an option is a number other than 0.
    pub fn get_flag(&self, name: &str) -> (r: bool)
        ensures
            r == (self@.dom().contains(name@) && int_of(self@[name@]) is Ok && int_of(
                self@[name@],
            )->Ok_0 != 0),
    {
        match self.get_int(name) {
            Some(n) => n != 0,
            None => false,
        }
    }

    /// All options there are, with their values.
    pub fn show(&self) -> (r: Vec<(String, String)>)
        ensures
            string_pairs(r@) == shown(self@),
    {
        let all = defaults();
        let ghost d = option_defaults();
        let mut out: Vec<(String, String)> = Vec::new();
        let mut i: usize = 0;
        assert(d.len() == all@.len());
        while i < all.len()
            invariant
                i <= all.len(),
                d == pair_texts(all@),
                d == option_defaults(),
                out@.len() == i,
                forall|j: int|
                    0 <= j < i ==> ((#[trigger] out@[j]).0@, out@[j].1@) == shown(self@)[j],
            decreases all.len() - i,
        {
            assert(d[i as int].0 == all@[i as int].0@);
            let value = match self.get_string(all[i].0) {
                Some(v) => copy_str(v),
                None => copy_str("(unset)"),
            };
            out.push((copy_str(all[i].0), value));
            i += 1;
        }
        assert(string_pairs(out@) =~= shown(self@));
        out
    }
}

/// An option that was set is read back, and the others stay.
pub proof fn options_are_read_back(
    values: Map<Seq<char>, Seq<char>>,
    name: Seq<char>,
    value: Seq<char>,
    other: Seq<char>,
)
    ensures
        values.insert(name, value)[name] == value,
        other != name ==> values.insert(name, value).dom().contains(other)
            == values.dom().contains(other) && values.insert(name, value)[other] == values[other],
{
}

/// Reading a file of options never changes what is no option.
pub proof fn reading_sets_known_options_only(
    s: IniState,
    lines: Seq<Seq<char>>,
    name: Seq<char>,
)
    requires
        !is_option(name),
    ensures
        s.all(lines).values.dom().contains(name) == s.values.dom().contains(name),
        s.values.dom().contains(name) ==> s.all(lines).values[name] == s.values[name],
    decreases lines.len(),
{
    if lines.len() > 0 {
        reading_sets_known_options_only(s, lines.drop_last(), name);
    }
}

impl IniState {
    /// The option that a line sets in the current section, and its value.
    pub open spec fn assignment(self, line: Seq<char>) -> Option<(Seq<char>, Seq<char>)> {
        let line = trim(line);
        if line.len() == 0 || line[0] == '#' || line[0] == ';' || (line[0] == '[' && line.last()
            == ']') {
            None
        } else {
            match find_char(line, '=') {
                None => None,
                Some(k) => {
                    let key = trim(line.take(k));
                    let name = if self.section.len() == 0 {
                        key
                    } else {
                        self.section + "."@ + key
                    };
                    if is_option(name) {
                        Some((name, trim(line.skip(k + 1))))
                    } else {
                        None
                    }
                },
            }
        }
    }

    /// Whether a line that is read after those before it sets an option.
    pub open spec fn sets(self, lines: Seq<Seq<char>>, i: int, name: Seq<char>) -> bool {
        self.all(lines.take(i)).assignment(lines[i]) matches Some(a) && a.0 == name
    }
}

/// An option that some lines do not set stays as it was before them.
pub proof fn options_that_are_not_set_stay(
    s: IniState,
    lines: Seq<Seq<char>>,
    from: int,
    name: Seq<char>,
)
    requires
        0 <= from <= lines.len(),
        forall|j: int| from <= j < lines.len() ==> !#[trigger] s.sets(lines, j, name),
    ensures
        ({
            let before = s.all(lines.take(from)).values;
            let after = s.all(lines).values;
            &&& after.dom().contains(name) == before.dom().contains(name)
            &&& before.dom().contains(name) ==> after[name] == before[name]
        }),
    decreases lines.len() - from,
{
    if from < lines.len() {
        assert(!s.sets(lines, from, name));
        assert(lines.take(from + 1).drop_last() =~= lines.take(from));
        assert(lines.take(from + 1).last() == lines[from]);
        options_that_are_not_set_stay(s, lines, from + 1, name);
    } else {
        assert(lines.take(from) =~= lines);
    }
}

/// The last line that sets an option decides what it is.
pub proof fn the_last_assignment_wins(
    s: IniState,
    lines: Seq<Seq<char>>,
    i: int,
    name: Seq<char>,
    value: Seq<char>,
)
    requires
        0 <= i < lines.len(),
        s.all(lines.take(i)).assignment(lines[i]) == Some((name, value)),
        forall|j: int| i < j < lines.len() ==> !#[trigger] s.sets(lines, j, name),
    ensures
        s.all(lines).values.dom().contains(name),
        s.all(lines).values[name] == value,
{
    assert(lines.take(i + 1).drop_last() =~= lines.take(i));
    assert(lines.take(i + 1).last() == lines[i]);
    options_that_are_not_set_stay(s, lines, i + 1, name);
}

proof fn lemma_named_defaults(d: Seq<(Seq<char>, Seq<char>)>, name: Seq<char>)
    requires
        fixed_defaults(d).dom().contains(name),
    ensures
        exists|i: int| 0 <= i < d.len() && (#[trigger] d[i]).0 == name,
    decreases d.len(),
{
    if d.len() > 0 {
        if fixed_defaults(d.drop_last()).dom().contains(name) {
            lemma_named_defaults(d.drop_last(), name);
            let i = choose|i: int|
                0 <= i < d.drop_last().len() && (#[trigger] d.drop_last()[i]).0 == name;
            assert(d[i].0 == name);
        } else {
            assert(d[d.len() - 1].0 == name);
        }
    }
}

/// An option that has a default begins with it, and one without begins with no value; nothing
/// else has a value at the beginning but the number of jobs, which is that of the processors
/// where it has no default.
pub proof fn options_begin_with_their_defaults(
    d: Seq<(Seq<char>, Seq<char>)>,
    i: int,
    name: Seq<char>,
    cpus: nat,
)
    requires
        0 <= i < d.len(),
        forall|a: int, b: int| 0 <= a < b < d.len() ==> (#[trigger] d[a]).0 != (#[trigger] d[b]).0,
    ensures
        fixed_defaults(d).dom().contains(d[i].0) <==> d[i].1.len() > 0,
        d[i].1.len() > 0 ==> fixed_defaults(d)[d[i].0] == d[i].1,
        initial_options(cpus).dom().contains("updater.num_jobs"@),
        !fixed_defaults(option_defaults()).dom().contains("updater.num_jobs"@)
            ==> initial_options(cpus)["updater.num_jobs"@] == nat_text(cpus),
        name != "updater.num_jobs"@ ==> {
            &&& initial_options(cpus).dom().contains(name) == fixed_defaults(
                option_defaults(),
            ).dom().contains(name)
            &&& initial_options(cpus)[name] == fixed_defaults(option_defaults())[name]
        },
    decreases d.len(),
{
    let b = d.drop_last();
    let n = d.len() - 1;
    if i < n {
        assert forall|x: int, y: int| 0 <= x < y < b.len() implies (#[trigger] b[x]).0 != (
        #[trigger] b[y]).0 by {
            assert(b[x] == d[x] && b[y] == d[y]);
        }
        options_begin_with_their_defaults(b, i, name, cpus);
        assert(b[i] == d[i]);
        assert(d[i].0 != d[n].0);
    } else if fixed_defaults(b).dom().contains(d[n].0) {
        lemma_named_defaults(b, d[n].0);
        let k = choose|k: int| 0 <= k < b.len() && (#[trigger] b[k]).0 == d[n].0;
        assert(d[k].0 != d[n].0);
    }
}

} // verus!
