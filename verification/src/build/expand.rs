//! Rules with patterns become rules with files.
use vstd::prelude::*;

use crate::ordmap::{deep, lemma_deep_insert, OrdMap};
use crate::parser::glob::{
    dir_part, expand_all, expand_globs, file_part, glob_dir, glob_file, has_glob, is_glob, Listing,
    Listings,
};
use crate::parser::percent::{
    command_text, expand_output_pattern, expand_percent, has_hidden_part, hidden_output_text,
    input_of, input_texts, output_text, validate_output_path, InputFile, InputText,
};
use crate::parser::rule::{
    copy_opt, lemma_rule_texts_push, rule_texts, CommandText, Rule, RuleCommand, RuleText,
};
use crate::parser::vardb::{ParseVarDb, VarTables};
use crate::paths::{file_name, str_file_name};
use crate::sorting::{sort, sort_strings};
use crate::text::{
    concat3, copy_str, copy_strings, find, list_contains, same, str_find, str_find_char,
    str_first_is, str_last_is, str_slice, texts, to_chars,
};

verus! {

// ------------------------------------------------ names

/// Whether a name stands for a group, `<name>`, or a bin, `{name}`.
pub open spec fn names_group_or_bin(s: Seq<char>) -> bool {
    ||| (s.len() > 0 && s[0] == '<' && s.last() == '>')
    ||| (s.len() > 0 && s[0] == '{' && s.last() == '}')
    ||| s.contains('<')
}

/// Whether a name stands for a group, `<name>`, or a bin, `{name}`.
pub fn is_group_or_bin(name: &str) -> (r: bool)
    ensures
        r == names_group_or_bin(name@),
{
    let found = str_find_char(name, '<');
    proof {
        if found is Some {
            assert(name@[found->0 as int] == '<');
        }
    }
    (str_first_is(name, '<') && str_last_is(name, '>')) || (str_first_is(name, '{')
        && str_last_is(name, '}')) || found.is_some()
}

/// Whether a name stands for a file of the directory itself.
pub open spec fn names_local_file(s: Seq<char>) -> bool {
    &&& s.len() > 0
    &&& !has_glob(s)
    &&& find(s, ".."@) is None
    &&& !s.contains('/')
    &&& !names_group_or_bin(s)
}

/// Whether a name stands for a file of the directory itself.
pub fn is_explicit_file_ref(name: &str) -> (r: bool)
    ensures
        r == names_local_file(name@),
{
    let slash = str_find_char(name, '/');
    proof {
        if slash is Some {
            assert(name@[slash->0 as int] == '/');
        }
    }
    name.unicode_len() > 0 && !is_glob(name) && str_find(name, "..").is_none() && slash.is_none()
        && !is_group_or_bin(name)
}

/// Whether a command holds a `%` that is not escaped by another one and that is
/// followed by a text.
pub open spec fn has_flag(s: Seq<char>, suffix: Seq<char>) -> bool
    decreases s.len(),
{
    if s.len() == 0 {
        false
    } else if s[0] != '%' {
        has_flag(s.skip(1), suffix)
    } else if s.len() > 1 && s[1] == '%' {
        has_flag(s.skip(2), suffix)
    } else {
        suffix.is_prefix_of(s.skip(1)) || has_flag(s.skip(1), suffix)
    }
}

/// Whether a command holds a pattern, such as `%f`, whose `%` is not escaped by
/// another one.
pub fn has_unescaped_percent(cmd: &str, pattern: &str) -> (r: bool)
    requires
        pattern@.len() > 0,
    ensures
        r == has_flag(cmd@, pattern@.skip(1)),
{
    let v = to_chars(cmd);
    let p = to_chars(pattern);
    let ghost suffix = pattern@.skip(1);
    let mut i: usize = 0;
    assert(v@.skip(0) =~= cmd@);
    while i < v.len()
        invariant
            i <= v.len(),
            v@ == cmd@,
            p@ == pattern@,
            p@.len() > 0,
            suffix == pattern@.skip(1),
            has_flag(cmd@, suffix) == has_flag(v@.skip(i as int), suffix),
        decreases v.len() - i,
    {
        let ghost rest = v@.skip(i as int);
        proof {
            assert(rest.skip(1) =~= v@.skip(i + 1));
        }
        if v[i] == '%' {
            if i + 1 < v.len() && v[i + 1] == '%' {
                assert(rest.skip(2) =~= v@.skip(i + 2));
                i += 2;
            } else {
                if chars_at(&v, i + 1, &p) {
                    return true;
                }
                i += 1;
            }
        } else {
            i += 1;
        }
    }
    assert(v@.skip(i as int) =~= Seq::empty());
    false
}

/// Whether the characters of a pattern after its first stand at a place.
fn chars_at(v: &Vec<char>, at: usize, p: &Vec<char>) -> (r: bool)
    requires
        at <= v@.len(),
        p@.len() > 0,
    ensures
        r == p@.skip(1).is_prefix_of(v@.skip(at as int)),
{
    let ghost want = p@.skip(1);
    let ghost rest = v@.skip(at as int);
    let n = v.len();
    if p.len() - 1 > n - at {
        return false;
    }
    let mut k: usize = 1;
    while k < p.len()
        invariant
            1 <= k <= p.len(),
            n == v@.len(),
            p@.len() - 1 <= n - at,
            at <= v@.len(),
            want == p@.skip(1),
            rest == v@.skip(at as int),
            forall|j: int| 0 <= j < k - 1 ==> want[j] == #[trigger] rest[j],
        decreases p.len() - k,
    {
        assert(want[k - 1] == p@[k as int]);
        assert(rest[k - 1] == v@[at + k - 1]);
        if p[k] != v[at + (k - 1)] {
            return false;
        }
        k += 1;
    }
    assert(want =~= rest.subrange(0, want.len() as int));
    true
}

// ------------------------------------------------ patterns and declared outputs

/// Whether a pattern matches a whole text: `*` matches any characters, `?` any
/// one, and every other character itself.
pub open spec fn simple_matches(p: Seq<char>, t: Seq<char>) -> bool
    decreases p.len(), t.len(),
{
    if p.len() == 0 {
        t.len() == 0
    } else if p[0] == '*' {
        simple_matches(p.skip(1), t) || (t.len() > 0 && simple_matches(p, t.skip(1)))
    } else if t.len() == 0 {
        false
    } else {
        (p[0] == '?' || p[0] == t[0]) && simple_matches(p.skip(1), t.skip(1))
    }
}

/// Whether the rest of a pattern matches the rest of a text.
pub fn simple_glob_recursive(pattern: &[char], pi: usize, text: &[char], ti: usize) -> (r: bool)
    requires
        pi <= pattern@.len(),
        ti <= text@.len(),
    ensures
        r == simple_matches(pattern@.skip(pi as int), text@.skip(ti as int)),
    decreases pattern@.len() - pi,
{
    let mut p: usize = pi;
    let mut t: usize = ti;
    let ghost target = simple_matches(pattern@.skip(pi as int), text@.skip(ti as int));
    while p < pattern.len()
        invariant
            pi <= p <= pattern.len(),
            t <= text.len(),
            target == simple_matches(pattern@.skip(p as int), text@.skip(t as int)),
            target == simple_matches(pattern@.skip(pi as int), text@.skip(ti as int)),
        decreases pattern.len() - p,
    {
        let ghost rest = pattern@.skip(p as int);
        let ghost left = text@.skip(t as int);
        proof {
            assert(rest[0] == pattern@[p as int]);
            assert(rest.skip(1) =~= pattern@.skip(p + 1));
            if t < text@.len() {
                assert(left[0] == text@[t as int]);
                assert(left.skip(1) =~= text@.skip(t + 1));
            }
        }
        let c = pattern[p];
        if c == '*' {
            let mut at: usize = t;
            while at < text.len()
                invariant
                    t <= at <= text.len(),
                    pi <= p < pattern.len(),
                    rest == pattern@.skip(p as int),
                    rest.len() > 0,
                    rest[0] == '*',
                    rest.skip(1) == pattern@.skip(p + 1),
                    target == simple_matches(rest, text@.skip(at as int)),
                    target == simple_matches(pattern@.skip(pi as int), text@.skip(ti as int)),
                decreases text.len() - at,
            {
                if simple_glob_recursive(pattern, p + 1, text, at) {
                    return true;
                }
                assert(text@.skip(at as int).skip(1) =~= text@.skip(at + 1));
                at += 1;
            }
            assert(text@.skip(at as int) =~= Seq::empty());
            return simple_glob_recursive(pattern, p + 1, text, at);
        }
        if t >= text.len() {
            return false;
        }
        if c != '?' && text[t] != c {
            return false;
        }
        p += 1;
        t += 1;
    }
    assert(pattern@.skip(p as int) =~= Seq::empty());
    t == text.len()
}

/// Whether a pattern with `*` and `?` matches a whole text.
pub fn simple_glob_match(pattern: &str, text: &str) -> (r: bool)
    ensures
        r == simple_matches(pattern@, text@),
{
    let p = to_chars(pattern);
    let t = to_chars(text);
    assert(p@.skip(0) =~= pattern@);
    assert(t@.skip(0) =~= text@);
    simple_glob_recursive(p.as_slice(), 0, t.as_slice(), 0)
}

/// Whether a pattern matches a path: the directories are the same, and the
/// pattern matches the name.
pub open spec fn pattern_names(pattern: Seq<char>, name: Seq<char>) -> bool {
    dir_part(pattern) == dir_part(name) && simple_matches(file_part(pattern), file_part(name))
}

/// Whether a pattern matches a path.
pub fn glob_matches_name(pattern: &str, name: &str) -> (r: bool)
    ensures
        r == pattern_names(pattern@, name@),
{
    same(glob_dir(pattern), glob_dir(name)) && simple_glob_match(
        glob_file(pattern),
        glob_file(name),
    )
}

/// Files with those declared outputs that a pattern matches and that are not
/// among them.
pub open spec fn with_declared(
    found: Seq<Seq<char>>,
    declared: Seq<Seq<char>>,
    pattern: Seq<char>,
) -> Seq<Seq<char>>
    decreases declared.len(),
{
    if declared.len() == 0 {
        found
    } else {
        let name = declared[0];
        with_declared(
            if pattern_names(pattern, name) && !found.contains(name) {
                found.push(name)
            } else {
                found
            },
            declared.drop_first(),
            pattern,
        )
    }
}

/// What patterns expand to, after some files: the files on disk and the
/// declared outputs that each one matches, in order.
pub open spec fn expand_patterns(
    found: Seq<Seq<char>>,
    patterns: Seq<Seq<char>>,
    listings: Map<Seq<char>, Listing>,
    declared: Seq<Seq<char>>,
) -> Result<Seq<Seq<char>>, Seq<char>>
    decreases patterns.len(),
{
    if patterns.len() == 0 {
        Ok(found)
    } else if has_glob(patterns[0]) {
        match expand_all(seq![patterns[0]], listings) {
            Err(m) => Err(m),
            Ok(files) => expand_patterns(
                found + sort(with_declared(files, declared, patterns[0])),
                patterns.drop_first(),
                listings,
                declared,
            ),
        }
    } else {
        expand_patterns(found.push(patterns[0]), patterns.drop_first(), listings, declared)
    }
}

/// Expands patterns to the files on disk and the declared outputs that they
/// match.
pub fn expand_globs_with_declared(
    patterns: &[String],
    listings: &Listings,
    declared_outputs: &[String],
) -> (r: Result<Vec<String>, String>)
    ensures
        match (r, expand_patterns(
            Seq::empty(),
            texts(patterns@),
            listings@,
            texts(declared_outputs@),
        )) {
            (Ok(v), Ok(t)) => texts(v@) == t,
            (Err(m), Err(t)) => m@ == t,
            _ => false,
        },
{
    let ghost all = texts(patterns@);
    let ghost declared = texts(declared_outputs@);
    let ghost target = expand_patterns(Seq::empty(), all, listings@, declared);
    let mut out: Vec<String> = Vec::new();
    let mut i: usize = 0;
    proof {
        assert(texts(out@) =~= Seq::empty());
        assert(all.skip(0) =~= all);
    }
    while i < patterns.len()
        invariant
            i <= patterns.len(),
            all == texts(patterns@),
            declared == texts(declared_outputs@),
            target == expand_patterns(Seq::empty(), all, listings@, declared),
            target == expand_patterns(texts(out@), all.skip(i as int), listings@, declared),
        decreases patterns.len() - i,
    {
        let pattern = patterns[i].as_str();
        let ghost rest = all.skip(i as int);
        proof {
            assert(rest[0] == pattern@);
            assert(rest.drop_first() =~= all.skip(i + 1));
        }
        let ghost before = texts(out@);
        if is_glob(pattern) {
            let mut one: Vec<String> = Vec::new();
            one.push(copy_str(pattern));
            assert(texts(one@) =~= seq![pattern@]);
            let mut files = match expand_globs(one.as_slice(), listings) {
                Ok(v) => v,
                Err(m) => {
                    return Err(m);
                },
            };
            let ghost start = texts(files@);
            let ghost full = with_declared(start, declared, pattern@);
            let mut k: usize = 0;
            assert(declared.skip(0) =~= declared);
            while k < declared_outputs.len()
                invariant
                    k <= declared_outputs.len(),
                    declared == texts(declared_outputs@),
                    full == with_declared(texts(files@), declared.skip(k as int), pattern@),
                decreases declared_outputs.len() - k,
            {
                let name = declared_outputs[k].as_str();
                proof {
                    assert(declared.skip(k as int)[0] == name@);
                    assert(declared.skip(k as int).drop_first() =~= declared.skip(k + 1));
                }
                if glob_matches_name(pattern, name) && !list_contains(files.as_slice(), name) {
                    let ghost b = files@;
                    files.push(copy_str(name));
                    assert(texts(files@) =~= texts(b).push(name@));
                }
                k += 1;
            }
            assert(declared.skip(k as int) =~= Seq::empty());
            let mut sorted = sort_strings(files);
            let ghost tail = texts(sorted@);
            let ghost base = out@;
            out.append(&mut sorted);
            assert(texts(out@) =~= before + tail);
        } else {
            let ghost base = out@;
            out.push(copy_str(pattern));
            assert(texts(out@) =~= before.push(pattern@));
        }
        i += 1;
    }
    assert(all.skip(i as int) =~= Seq::empty());
    Ok(out)
}

// ------------------------------------------------ the state of an expansion

/// What is known of the directory of the rules: its name, the listings of the
/// directories that patterns search, and the files that are there.
pub struct Around {
    pub dir_name: Seq<char>,
    pub listings: Map<Seq<char>, Listing>,
    pub present: Set<Seq<char>>,
}

/// The rules so far, the outputs that they declare, and the bins that collect
/// outputs.
#[verifier::ext_equal]
pub struct Expanding {
    pub done: Seq<RuleText>,
    pub declared: Seq<Seq<char>>,
    pub bins: Map<Seq<char>, Seq<Seq<char>>>,
}

/// The files of a bin.
struct Bin {
    files: Vec<String>,
}

impl View for Bin {
    type V = Seq<Seq<char>>;

    closed spec fn view(&self) -> Seq<Seq<char>> {
        texts(self.files@)
    }
}

struct Progress {
    done: Vec<Rule>,
    declared: Vec<String>,
    bins: OrdMap<String, Bin>,
}

impl View for Progress {
    type V = Expanding;

    closed spec fn view(&self) -> Expanding {
        Expanding {
            done: rule_texts(self.done@),
            declared: texts(self.declared@),
            bins: deep(self.bins@),
        }
    }
}

/// Whether an input names a bin.
pub open spec fn is_bin(s: Seq<char>) -> bool {
    s.len() > 2 && s[0] == '{' && s.last() == '}'
}

/// The files of a bin, none where nothing was collected.
pub open spec fn bin_files(
    bins: Map<Seq<char>, Seq<Seq<char>>>,
    name: Seq<char>,
) -> Seq<Seq<char>> {
    if bins.dom().contains(name) {
        bins[name]
    } else {
        Seq::empty()
    }
}

/// Inputs with the files of a bin in place of its name.
pub open spec fn open_bins(
    inputs: Seq<Seq<char>>,
    bins: Map<Seq<char>, Seq<Seq<char>>>,
) -> Seq<Seq<char>>
    decreases inputs.len(),
{
    if inputs.len() == 0 {
        Seq::empty()
    } else {
        let s = inputs[0];
        (if is_bin(s) {
            bin_files(bins, s.subrange(1, s.len() - 1))
        } else {
            seq![s]
        }) + open_bins(inputs.drop_first(), bins)
    }
}

fn opened(inputs: &Vec<String>, bins: &OrdMap<String, Bin>) -> (r: Vec<String>)
    ensures
        texts(r@) == open_bins(texts(inputs@), deep(bins@)),
{
    let ghost all = texts(inputs@);
    let ghost b = deep(bins@);
    let mut out: Vec<String> = Vec::new();
    let mut i: usize = 0;
    proof {
        assert(all.skip(0) =~= all);
        assert(texts(out@) + open_bins(all, b) =~= open_bins(all, b));
    }
    while i < inputs.len()
        invariant
            i <= inputs.len(),
            all == texts(inputs@),
            b == deep(bins@),
            open_bins(all, b) == texts(out@) + open_bins(all.skip(i as int), b),
        decreases inputs.len() - i,
    {
        let s = inputs[i].as_str();
        let ghost before = texts(out@);
        let ghost rest = open_bins(all.skip(i + 1), b);
        proof {
            assert(all.skip(i as int)[0] == s@);
            assert(all.skip(i as int).drop_first() =~= all.skip(i + 1));
        }
        if s.unicode_len() > 2 && str_first_is(s, '{') && str_last_is(s, '}') {
            let name = copy_str(str_slice(s, 1, s.unicode_len() - 1));
            match bins.get(&name) {
                Some(bin) => {
                    let mut files = copy_strings(bin.files.as_slice());
                    let ghost tail = texts(files@);
                    proof {
                        assert(b.dom().contains(name@));
                        assert(tail == b[name@]);
                    }
                    out.append(&mut files);
                    proof {
                        assert(texts(out@) =~= before + tail);
                        assert(before + (tail + rest) =~= (before + tail) + rest);
                    }
                },
                None => {
                    assert(before + (Seq::<Seq<char>>::empty() + rest) =~= before + rest);
                },
            }
        } else {
            out.push(copy_str(s));
            proof {
                assert(texts(out@) =~= before.push(s@));
                assert(before + (seq![s@] + rest) =~= texts(out@) + rest);
            }
        }
        i += 1;
    }
    proof {
        assert(all.skip(i as int) =~= Seq::empty());
        assert(texts(out@) + Seq::<Seq<char>>::empty() =~= texts(out@));
    }
    out
}

/// Files without those that stand among some before.
pub open spec fn without_repeats(kept: Seq<Seq<char>>, files: Seq<Seq<char>>) -> Seq<Seq<char>>
    decreases files.len(),
{
    if files.len() == 0 {
        kept
    } else {
        without_repeats(
            if kept.contains(files[0]) {
                kept
            } else {
                kept.push(files[0])
            },
            files.drop_first(),
        )
    }
}

fn no_repeats(files: Vec<String>) -> (r: Vec<String>)
    ensures
        texts(r@) == without_repeats(Seq::empty(), texts(files@)),
{
    let ghost all = texts(files@);
    let ghost target = without_repeats(Seq::empty(), all);
    let mut out: Vec<String> = Vec::new();
    let mut i: usize = 0;
    proof {
        assert(all.skip(0) =~= all);
        assert(texts(out@) =~= Seq::empty());
    }
    while i < files.len()
        invariant
            i <= files.len(),
            all == texts(files@),
            target == without_repeats(texts(out@), all.skip(i as int)),
        decreases files.len() - i,
    {
        let s = files[i].as_str();
        proof {
            assert(all.skip(i as int)[0] == s@);
            assert(all.skip(i as int).drop_first() =~= all.skip(i + 1));
        }
        if !list_contains(out.as_slice(), s) {
            let ghost before = out@;
            out.push(copy_str(s));
            assert(texts(out@) =~= texts(before).push(s@));
        }
        i += 1;
    }
    assert(all.skip(i as int) =~= Seq::empty());
    out
}

/// The first name that stands for a file of the directory which is neither
/// there nor declared.
pub open spec fn first_missing(
    names: Seq<Seq<char>>,
    present: Set<Seq<char>>,
    declared: Seq<Seq<char>>,
) -> Option<Seq<char>>
    decreases names.len(),
{
    if names.len() == 0 {
        None
    } else if names_local_file(names[0]) && !present.contains(names[0]) && !declared.contains(
        names[0],
    ) {
        Some(names[0])
    } else {
        first_missing(names.drop_first(), present, declared)
    }
}

pub open spec fn missing_text(name: Seq<char>) -> Seq<char> {
    "tup error: Explicitly named file '"@ + name + "' not found"@
}

fn check_present(
    names: &Vec<String>,
    present: &OrdMap<String, ()>,
    declared: &Vec<String>,
) -> (r: Result<(), String>)
    ensures
        match (r, first_missing(texts(names@), present@.dom(), texts(declared@))) {
            (Ok(()), None) => true,
            (Err(m), Some(name)) => m@ == missing_text(name),
            _ => false,
        },
{
    let ghost all = texts(names@);
    let ghost d = texts(declared@);
    let ghost here = present@.dom();
    let mut i: usize = 0;
    assert(all.skip(0) =~= all);
    while i < names.len()
        invariant
            i <= names.len(),
            all == texts(names@),
            d == texts(declared@),
            here == present@.dom(),
            first_missing(all, here, d) == first_missing(all.skip(i as int), here, d),
        decreases names.len() - i,
    {
        let s = names[i].as_str();
        proof {
            assert(all.skip(i as int)[0] == s@);
            assert(all.skip(i as int).drop_first() =~= all.skip(i + 1));
        }
        if is_explicit_file_ref(s) && !present.contains(&names[i]) && !list_contains(
            declared.as_slice(),
            s,
        ) {
            return Err(
                concat3("tup error: Explicitly named file '", s, "' not found"),
            );
        }
        i += 1;
    }
    assert(all.skip(i as int) =~= Seq::empty());
    Ok(())
}

pub open spec fn no_input_text(flag: Seq<char>) -> Seq<char> {
    "tup error: "@ + flag + " used in rule pattern and no input files were specified"@
}

pub open spec fn no_order_only_text() -> Seq<char> {
    "tup error: %i used in rule pattern and no order-only input files were specified"@
}

/// The error of a command that speaks of inputs that its rule does not have.
pub open spec fn flag_error(rule: RuleText, inputs: Seq<Seq<char>>) -> Option<Seq<char>> {
    let cmd = rule.command.command;
    let bare = inputs.len() == 0 && !rule.had_inputs;
    if bare && has_flag(cmd, "%f"@.skip(1)) {
        Some(no_input_text("%f"@))
    } else if bare && has_flag(cmd, "%b"@.skip(1)) {
        Some(no_input_text("%b"@))
    } else if bare && has_flag(cmd, "%B"@.skip(1)) {
        Some(no_input_text("%B"@))
    } else if rule.order_only_inputs.len() == 0 && has_flag(cmd, "%i"@.skip(1)) {
        Some(no_order_only_text())
    } else {
        None
    }
}

fn no_input_error(flag: &str) -> (r: String)
    ensures
        r@ == no_input_text(flag@),
{
    concat3("tup error: ", flag, " used in rule pattern and no input files were specified")
}

fn check_flags(rule: &Rule, inputs: &Vec<String>) -> (r: Result<(), String>)
    ensures
        match (r, flag_error(rule@, texts(inputs@))) {
            (Ok(()), None) => true,
            (Err(m), Some(t)) => m@ == t,
            _ => false,
        },
{
    proof {
        reveal_strlit("%f");
        reveal_strlit("%b");
        reveal_strlit("%B");
        reveal_strlit("%i");
        assert(texts(inputs@).len() == inputs@.len());
        assert(texts(rule.order_only_inputs@).len() == rule.order_only_inputs@.len());
    }
    let cmd = rule.command.command.as_str();
    if inputs.len() == 0 && !rule.had_inputs {
        if has_unescaped_percent(cmd, "%f") {
            return Err(no_input_error("%f"));
        }
        if has_unescaped_percent(cmd, "%b") {
            return Err(no_input_error("%b"));
        }
        if has_unescaped_percent(cmd, "%B") {
            return Err(no_input_error("%B"));
        }
    }
    if rule.order_only_inputs.len() == 0 && has_unescaped_percent(cmd, "%i") {
        return Err(
            copy_str(
                "tup error: %i used in rule pattern and no order-only input files were specified",
            ),
        );
    }
    Ok(())
}

// ------------------------------------------------ one rule with its files

/// The outputs of a rule for some inputs: its patterns seen from the first
/// input, or as they are where there is none.
pub open spec fn outputs_for(patterns: Seq<Seq<char>>, inputs: Seq<Seq<char>>) -> Seq<Seq<char>> {
    if inputs.len() == 0 {
        patterns
    } else {
        Seq::new(patterns.len(), |i: int| output_text(patterns[i], input_of(inputs[0])))
    }
}

fn make_outputs(patterns: &Vec<String>, inputs: &Vec<String>) -> (r: Vec<String>)
    ensures
        texts(r@) == outputs_for(texts(patterns@), texts(inputs@)),
{
    if inputs.len() == 0 {
        return copy_strings(patterns.as_slice());
    }
    let input = InputFile::new(inputs[0].as_str());
    let ghost want = outputs_for(texts(patterns@), texts(inputs@));
    let mut out: Vec<String> = Vec::new();
    let mut i: usize = 0;
    while i < patterns.len()
        invariant
            i <= patterns.len(),
            inputs@.len() > 0,
            input@ == input_of(inputs@[0]@),
            want == outputs_for(texts(patterns@), texts(inputs@)),
            out@.len() == i,
            forall|j: int| 0 <= j < i ==> (#[trigger] out@[j])@ == want[j],
        decreases patterns.len() - i,
    {
        let s = expand_output_pattern(patterns[i].as_str(), &input);
        proof {
            assert(texts(inputs@)[0] == inputs@[0]@);
            assert(texts(patterns@)[i as int] == patterns@[i as int]@);
            assert(want[i as int] == s@);
        }
        out.push(s);
        i += 1;
    }
    assert(texts(out@) =~= want);
    out
}

/// The first output that is hidden.
pub open spec fn first_hidden(outputs: Seq<Seq<char>>) -> Option<Seq<char>>
    decreases outputs.len(),
{
    if outputs.len() == 0 {
        None
    } else if has_hidden_part(outputs[0]) {
        Some(outputs[0])
    } else {
        first_hidden(outputs.drop_first())
    }
}

fn check_hidden(outputs: &Vec<String>) -> (r: Result<(), String>)
    ensures
        match (r, first_hidden(texts(outputs@))) {
            (Ok(()), None) => true,
            (Err(m), Some(o)) => m@ == hidden_output_text(o),
            _ => false,
        },
{
    let ghost all = texts(outputs@);
    let mut i: usize = 0;
    assert(all.skip(0) =~= all);
    while i < outputs.len()
        invariant
            i <= outputs.len(),
            all == texts(outputs@),
            first_hidden(all) == first_hidden(all.skip(i as int)),
        decreases outputs.len() - i,
    {
        proof {
            assert(all.skip(i as int)[0] == outputs@[i as int]@);
            assert(all.skip(i as int).drop_first() =~= all.skip(i + 1));
        }
        match validate_output_path(outputs[i].as_str()) {
            Ok(()) => {},
            Err(m) => {
                return Err(m);
            },
        }
        i += 1;
    }
    assert(all.skip(i as int) =~= Seq::empty());
    Ok(())
}

/// The inputs as the `%`-flags see them.
pub open spec fn inputs_of(paths: Seq<Seq<char>>) -> Seq<InputText> {
    Seq::new(paths.len(), |i: int| input_of(paths[i]))
}

fn make_inputs(paths: &Vec<String>) -> (r: Vec<InputFile>)
    ensures
        input_texts(r@) == inputs_of(texts(paths@)),
{
    let mut out: Vec<InputFile> = Vec::new();
    let mut i: usize = 0;
    while i < paths.len()
        invariant
            i <= paths.len(),
            out@.len() == i,
            forall|j: int| 0 <= j < i ==> (#[trigger] out@[j])@ == input_of(paths@[j]@),
        decreases paths.len() - i,
    {
        out.push(InputFile::new(paths[i].as_str()));
        i += 1;
    }
    assert(input_texts(out@) =~= inputs_of(texts(paths@)));
    out
}

/// A text with the variables that a rule was parsed with, where it has them.
pub open spec fn with_vars(vars: Option<Map<Seq<char>, Seq<char>>>, s: Seq<char>) -> Seq<char> {
    match vars {
        Some(m) => (VarTables { vars: m, config: Map::empty() }).expand(s),
        None => s,
    }
}

fn expand_vars(vars: &Option<OrdMap<String, String>>, s: String) -> (r: String)
    ensures
        r@ == with_vars(
            match *vars {
                Some(m) => Some(deep(m@)),
                None => None,
            },
            s@,
        ),
{
    match vars {
        Some(m) => ParseVarDb::from_vars(m).expand(s.as_str()),
        None => s,
    }
}

/// The command of a rule for some inputs and outputs.
pub open spec fn command_for(
    rule: RuleText,
    inputs: Seq<Seq<char>>,
    outputs: Seq<Seq<char>>,
    dir_name: Seq<char>,
) -> CommandText {
    let files = inputs_of(inputs);
    CommandText {
        command: with_vars(
            rule.vars_snapshot,
            command_text(
                rule.command.command,
                files,
                outputs,
                rule.order_only_inputs,
                dir_name,
            ),
        ),
        display: match rule.command.display {
            Some(d) => Some(
                with_vars(
                    rule.vars_snapshot,
                    command_text(d, files, outputs, rule.order_only_inputs, dir_name),
                ),
            ),
            None => None,
        },
        flags: rule.command.flags,
    }
}

fn make_command(
    rule: &Rule,
    inputs: &Vec<String>,
    outputs: &Vec<String>,
    dir_name: &str,
) -> (r: RuleCommand)
    ensures
        r@ == command_for(rule@, texts(inputs@), texts(outputs@), dir_name@),
{
    let files = make_inputs(inputs);
    let text = expand_percent(
        rule.command.command.as_str(),
        files.as_slice(),
        outputs.as_slice(),
        rule.order_only_inputs.as_slice(),
        dir_name,
    );
    let command = expand_vars(&rule.vars_snapshot, text);
    let display = match &rule.command.display {
        Some(d) => {
            let shown = expand_percent(
                d.as_str(),
                files.as_slice(),
                outputs.as_slice(),
                rule.order_only_inputs.as_slice(),
                dir_name,
            );
            Some(expand_vars(&rule.vars_snapshot, shown))
        },
        None => None,
    };
    RuleCommand { command, display, flags: copy_opt(&rule.command.flags) }
}

impl Expanding {
    /// A rule for some inputs joins the others; its outputs are declared and go
    /// into its bin. A hidden output is an error.
    pub open spec fn emit(
        self,
        rule: RuleText,
        inputs: Seq<Seq<char>>,
        had_inputs: bool,
        dir_name: Seq<char>,
    ) -> Result<Expanding, Seq<char>> {
        let outputs = outputs_for(rule.outputs, inputs);
        match first_hidden(outputs) {
            Some(o) => Err(hidden_output_text(o)),
            None => Ok(
                Expanding {
                    done: self.done.push(
                        RuleText {
                            foreach: false,
                            inputs,
                            order_only_inputs: rule.order_only_inputs,
                            command: command_for(rule, inputs, outputs, dir_name),
                            outputs,
                            extra_outputs: rule.extra_outputs,
                            line_number: rule.line_number,
                            had_inputs,
                            vars_snapshot: None,
                            bin: rule.bin,
                        },
                    ),
                    declared: self.declared + outputs,
                    bins: match rule.bin {
                        Some(name) => self.bins.insert(
                            name,
                            bin_files(self.bins, name) + outputs,
                        ),
                        None => self.bins,
                    },
                },
            ),
        }
    }

    /// A rule for each of some inputs joins the others.
    pub open spec fn emit_each(
        self,
        rule: RuleText,
        inputs: Seq<Seq<char>>,
        dir_name: Seq<char>,
    ) -> Result<Expanding, Seq<char>>
        decreases inputs.len(),
    {
        if inputs.len() == 0 {
            Ok(self)
        } else {
            match self.emit(rule, seq![inputs[0]], true, dir_name) {
                Err(e) => Err(e),
                Ok(s) => s.emit_each(rule, inputs.drop_first(), dir_name),
            }
        }
    }

    /// A rule is expanded. One whose inputs came to nothing is left out.
    pub open spec fn rule(self, rule: RuleText, around: Around) -> Result<Expanding, Seq<char>> {
        if rule.had_inputs && rule.inputs.len() == 0 {
            Ok(self)
        } else {
            let inputs = open_bins(rule.inputs, self.bins);
            match expand_patterns(Seq::empty(), inputs, around.listings, self.declared) {
                Err(m) => Err(m),
                Ok(found) => {
                    let files = without_repeats(Seq::empty(), found);
                    match first_missing(inputs, around.present, self.declared) {
                        Some(name) => Err(missing_text(name)),
                        None => match first_missing(
                            rule.order_only_inputs,
                            around.present,
                            self.declared,
                        ) {
                            Some(name) => Err(missing_text(name)),
                            None => match flag_error(rule, files) {
                                Some(m) => Err(m),
                                None => if rule.foreach {
                                    self.emit_each(rule, files, around.dir_name)
                                } else {
                                    self.emit(rule, files, rule.had_inputs, around.dir_name)
                                },
                            },
                        },
                    }
                },
            }
        }
    }

    /// Rules are expanded, one after the other.
    pub open spec fn rules(self, rules: Seq<RuleText>, around: Around) -> Result<
        Expanding,
        Seq<char>,
    >
        decreases rules.len(),
    {
        if rules.len() == 0 {
            Ok(self)
        } else {
            match self.rule(rules[0], around) {
                Err(e) => Err(e),
                Ok(s) => s.rules(rules.drop_first(), around),
            }
        }
    }
}

fn emit(
    state: &mut Progress,
    rule: &Rule,
    inputs: Vec<String>,
    had_inputs: bool,
    dir_name: &str,
) -> (r: Result<(), String>)
    ensures
        match (r, old(state)@.emit(rule@, texts(inputs@), had_inputs, dir_name@)) {
            (Ok(()), Ok(t)) => final(state)@ == t,
            (Err(m), Err(t)) => m@ == t,
            _ => false,
        },
{
    let ghost start = state@;
    let ghost ins = texts(inputs@);
    let outputs = make_outputs(&rule.outputs, &inputs);
    match check_hidden(&outputs) {
        Ok(()) => {},
        Err(m) => {
            return Err(m);
        },
    }
    let ghost outs = texts(outputs@);
    let command = make_command(rule, &inputs, &outputs, dir_name);
    let mut more = copy_strings(outputs.as_slice());
    state.declared.append(&mut more);
    assert(texts(state.declared@) =~= start.declared + outs);
    if let Some(name) = &rule.bin {
        let mut files = match state.bins.get(name) {
            Some(bin) => {
                assert(start.bins.dom().contains(name@));
                copy_strings(bin.files.as_slice())
            },
            None => Vec::new(),
        };
        let ghost before = texts(files@);
        assert(before =~= bin_files(start.bins, name@));
        let mut again = copy_strings(outputs.as_slice());
        files.append(&mut again);
        assert(texts(files@) =~= before + outs);
        let bin = Bin { files };
        proof {
            lemma_deep_insert(state.bins@, name@, bin);
        }
        state.bins.insert(name.clone(), bin);
    }
    let made = Rule {
        foreach: false,
        inputs,
        order_only_inputs: copy_strings(rule.order_only_inputs.as_slice()),
        command,
        outputs,
        extra_outputs: copy_strings(rule.extra_outputs.as_slice()),
        line_number: rule.line_number,
        had_inputs,
        vars_snapshot: None,
        bin: copy_opt(&rule.bin),
    };
    proof {
        lemma_rule_texts_push(state.done@, made);
    }
    state.done.push(made);
    Ok(())
}

fn expand_one_rule(
    state: &mut Progress,
    rule: &Rule,
    dir_name: &str,
    listings: &Listings,
    present: &OrdMap<String, ()>,
) -> (r: Result<(), String>)
    ensures
        match (r, old(state)@.rule(
            rule@,
            (Around { dir_name: dir_name@, listings: listings@, present: present@.dom() }),
        )) {
            (Ok(()), Ok(t)) => final(state)@ == t,
            (Err(m), Err(t)) => m@ == t,
            _ => false,
        },
{
    assert(texts(rule.inputs@).len() == rule.inputs@.len());
    if rule.had_inputs && rule.inputs.len() == 0 {
        return Ok(());
    }
    let inputs = opened(&rule.inputs, &state.bins);
    let found = match expand_globs_with_declared(
        inputs.as_slice(),
        listings,
        state.declared.as_slice(),
    ) {
        Ok(v) => v,
        Err(m) => {
            return Err(m);
        },
    };
    let files = no_repeats(found);
    match check_present(&inputs, present, &state.declared) {
        Ok(()) => {},
        Err(m) => {
            return Err(m);
        },
    }
    match check_present(&rule.order_only_inputs, present, &state.declared) {
        Ok(()) => {},
        Err(m) => {
            return Err(m);
        },
    }
    match check_flags(rule, &files) {
        Ok(()) => {},
        Err(m) => {
            return Err(m);
        },
    }
    if !rule.foreach {
        return emit(state, rule, files, rule.had_inputs, dir_name);
    }
    let ghost all = texts(files@);
    let ghost start = state@;
    let mut i: usize = 0;
    assert(all.skip(0) =~= all);
    while i < files.len()
        invariant
            i <= files.len(),
            all == texts(files@),
            start.emit_each(rule@, all, dir_name@) == state@.emit_each(
                rule@,
                all.skip(i as int),
                dir_name@,
            ),
            old(state)@.rule(
                rule@,
                (Around { dir_name: dir_name@, listings: listings@, present: present@.dom() }),
            ) == start.emit_each(rule@, all, dir_name@),
        decreases files.len() - i,
    {
        proof {
            assert(all.skip(i as int)[0] == files@[i as int]@);
            assert(all.skip(i as int).drop_first() =~= all.skip(i + 1));
        }
        let mut one: Vec<String> = Vec::new();
        one.push(files[i].clone());
        assert(texts(one@) =~= seq![files@[i as int]@]);
        match emit(state, rule, one, true, dir_name) {
            Ok(()) => {},
            Err(m) => {
                return Err(m);
            },
        }
        i += 1;
    }
    assert(all.skip(i as int) =~= Seq::empty());
    Ok(())
}

// ------------------------------------------------ outputs that stand twice

/// The first output of a list that stands in it before.
pub open spec fn first_repeated(seen: Seq<Seq<char>>, outputs: Seq<Seq<char>>) -> Option<Seq<char>>
    decreases outputs.len(),
{
    if outputs.len() == 0 {
        None
    } else if seen.contains(outputs[0]) {
        Some(outputs[0])
    } else {
        first_repeated(seen.push(outputs[0]), outputs.drop_first())
    }
}

/// The first output that a rule has twice.
pub open spec fn repeated_output(rules: Seq<RuleText>) -> Option<Seq<char>>
    decreases rules.len(),
{
    if rules.len() == 0 {
        None
    } else {
        match first_repeated(Seq::empty(), rules[0].outputs) {
            Some(o) => Some(o),
            None => repeated_output(rules.drop_first()),
        }
    }
}

pub open spec fn repeated_text(output: Seq<char>) -> Seq<char> {
    "tup error: The output file '"@ + output + "' is listed multiple times in a command"@
}

fn check_repeated(rules: &Vec<Rule>) -> (r: Result<(), String>)
    ensures
        match (r, repeated_output(rule_texts(rules@))) {
            (Ok(()), None) => true,
            (Err(m), Some(o)) => m@ == repeated_text(o),
            _ => false,
        },
{
    let ghost all = rule_texts(rules@);
    let mut i: usize = 0;
    assert(all.skip(0) =~= all);
    while i < rules.len()
        invariant
            i <= rules.len(),
            all == rule_texts(rules@),
            repeated_output(all) == repeated_output(all.skip(i as int)),
        decreases rules.len() - i,
    {
        let outputs = &rules[i].outputs;
        let ghost outs = texts(outputs@);
        proof {
            assert(all.skip(i as int)[0] == rules@[i as int]@);
            assert(all.skip(i as int).drop_first() =~= all.skip(i + 1));
            assert(outs.skip(0) =~= outs);
            assert(outs.take(0) =~= Seq::empty());
        }
        let mut seen: Vec<String> = Vec::new();
        assert(texts(seen@) =~= Seq::empty());
        let mut k: usize = 0;
        while k < outputs.len()
            invariant
                k <= outputs.len(),
                i < rules.len(),
                outs == texts(outputs@),
                all.skip(i as int)[0].outputs == outs,
                all == rule_texts(rules@),
                repeated_output(all) == repeated_output(all.skip(i as int)),
                first_repeated(Seq::empty(), outs) == first_repeated(
                    texts(seen@),
                    outs.skip(k as int),
                ),
            decreases outputs.len() - k,
        {
            let o = outputs[k].as_str();
            proof {
                assert(outs.skip(k as int)[0] == o@);
                assert(outs.skip(k as int).drop_first() =~= outs.skip(k + 1));
            }
            if list_contains(seen.as_slice(), o) {
                return Err(
                    concat3(
                        "tup error: The output file '",
                        o,
                        "' is listed multiple times in a command",
                    ),
                );
            }
            let ghost before = seen@;
            seen.push(copy_str(o));
            assert(texts(seen@) =~= texts(before).push(o@));
            k += 1;
        }
        assert(outs.skip(k as int) =~= Seq::empty());
        i += 1;
    }
    assert(all.skip(i as int) =~= Seq::empty());
    Ok(())
}

pub open spec fn owned_text(
    output: Seq<char>,
    command: Seq<char>,
    owner: Seq<char>,
) -> Seq<char> {
    "tup error: Unable to create output file '"@ + output + "' in '"@ + command
        + "' because it is already owned by '"@ + owner + "'"@
}

/// Who owns which output after a command claims some. One that another command
/// owns is an error.
pub open spec fn claim(
    owners: Map<Seq<char>, Seq<char>>,
    command: Seq<char>,
    outputs: Seq<Seq<char>>,
) -> Result<Map<Seq<char>, Seq<char>>, Seq<char>>
    decreases outputs.len(),
{
    if outputs.len() == 0 {
        Ok(owners)
    } else if owners.dom().contains(outputs[0]) && owners[outputs[0]] != command {
        Err(owned_text(outputs[0], command, owners[outputs[0]]))
    } else {
        claim(owners.insert(outputs[0], command), command, outputs.drop_first())
    }
}

/// The error of two rules with the same output and different commands.
pub open spec fn claim_all(
    owners: Map<Seq<char>, Seq<char>>,
    rules: Seq<RuleText>,
) -> Option<Seq<char>>
    decreases rules.len(),
{
    if rules.len() == 0 {
        None
    } else {
        match claim(owners, rules[0].command.command, rules[0].outputs) {
            Err(m) => Some(m),
            Ok(o) => claim_all(o, rules.drop_first()),
        }
    }
}

fn check_owned(rules: &Vec<Rule>) -> (r: Result<(), String>)
    ensures
        match (r, claim_all(Map::empty(), rule_texts(rules@))) {
            (Ok(()), None) => true,
            (Err(m), Some(t)) => m@ == t,
            _ => false,
        },
{
    let ghost all = rule_texts(rules@);
    let ghost target = claim_all(Map::empty(), all);
    let mut owners: OrdMap<String, String> = OrdMap::new();
    let mut i: usize = 0;
    proof {
        assert(all.skip(0) =~= all);
        assert(deep(owners@) =~= Map::<Seq<char>, Seq<char>>::empty());
    }
    while i < rules.len()
        invariant
            i <= rules.len(),
            all == rule_texts(rules@),
            target == claim_all(Map::empty(), all),
            target == claim_all(deep(owners@), all.skip(i as int)),
        decreases rules.len() - i,
    {
        let outputs = &rules[i].outputs;
        let command = rules[i].command.command.as_str();
        let ghost outs = texts(outputs@);
        let ghost first = deep(owners@);
        proof {
            assert(all.skip(i as int)[0] == rules@[i as int]@);
            assert(all.skip(i as int).drop_first() =~= all.skip(i + 1));
            assert(outs.skip(0) =~= outs);
        }
        let mut k: usize = 0;
        while k < outputs.len()
            invariant
                k <= outputs.len(),
                outs == texts(outputs@),
                target == claim_all(Map::empty(), all),
                all == rule_texts(rules@),
                target == claim_all(first, all.skip(i as int)),
                i < rules.len(),
                all.skip(i as int)[0].outputs == outs,
                all.skip(i as int)[0].command.command == command@,
                all.skip(i as int).len() > 0,
                claim(first, command@, outs) == claim(
                    deep(owners@),
                    command@,
                    outs.skip(k as int),
                ),
            decreases outputs.len() - k,
        {
            let o = outputs[k].as_str();
            proof {
                assert(outs.skip(k as int)[0] == o@);
                assert(outs.skip(k as int).drop_first() =~= outs.skip(k + 1));
            }
            if let Some(owner) = owners.get(&outputs[k]) {
                assert(deep(owners@).dom().contains(o@));
                if !same(owner.as_str(), command) {
                    let a = concat3("tup error: Unable to create output file '", o, "' in '");
                    let b = concat3(
                        a.as_str(),
                        command,
                        "' because it is already owned by '",
                    );
                    return Err(concat3(b.as_str(), owner.as_str(), "'"));
                }
            }
            let c = copy_str(command);
            proof {
                lemma_deep_insert(owners@, o@, c);
            }
            owners.insert(copy_str(o), c);
            k += 1;
        }
        assert(outs.skip(k as int) =~= Seq::empty());
        i += 1;
    }
    assert(all.skip(i as int) =~= Seq::empty());
    Ok(())
}

// ------------------------------------------------ all rules of a directory

/// What the rules of a directory expand to.
pub open spec fn expanded_rules(rules: Seq<RuleText>, around: Around) -> Result<
    Seq<RuleText>,
    Seq<char>,
> {
    let start = Expanding { done: Seq::empty(), declared: Seq::empty(), bins: Map::empty() };
    match start.rules(rules, around) {
        Err(m) => Err(m),
        Ok(s) => match repeated_output(s.done) {
            Some(o) => Err(repeated_text(o)),
            None => match claim_all(Map::empty(), s.done) {
                Some(m) => Err(m),
                None => Ok(s.done),
            },
        },
    }
}

/// The name of a directory, `.` where its path has none.
pub open spec fn name_of_dir(path: Seq<char>) -> Seq<char> {
    match file_name(path) {
        Some(n) => n,
        None => "."@,
    }
}

/// Expands the rules of a directory: patterns become the files on disk and the
/// outputs of earlier rules that they match, a `foreach` rule becomes one rule
/// for each input, and the `%`-flags of commands and outputs are replaced.
///
/// `listings` holds the directories of the patterns, and `present` the names of
/// the rules that are there.
pub fn expand_rules_for_dir(
    rules: &[Rule],
    work_dir: &str,
    listings: &Listings,
    present: &OrdMap<String, ()>,
) -> (r: Result<Vec<Rule>, String>)
    ensures
        match (r, expanded_rules(
            rule_texts(rules@),
            (Around {
                dir_name: name_of_dir(work_dir@),
                listings: listings@,
                present: present@.dom(),
            }),
        )) {
            (Ok(v), Ok(t)) => rule_texts(v@) == t,
            (Err(m), Err(t)) => m@ == t,
            _ => false,
        },
{
    let dir_name = match str_file_name(work_dir) {
        Some(n) => n,
        None => ".",
    };
    let ghost around = Around {
        dir_name: name_of_dir(work_dir@),
        listings: listings@,
        present: present@.dom(),
    };
    let ghost all = rule_texts(rules@);
    let ghost start = Expanding {
        done: Seq::empty(),
        declared: Seq::empty(),
        bins: Map::empty(),
    };
    let mut state = Progress { done: Vec::new(), declared: Vec::new(), bins: OrdMap::new() };
    let mut i: usize = 0;
    proof {
        assert(all.skip(0) =~= all);
        assert(state@ =~= start);
    }
    while i < rules.len()
        invariant
            i <= rules.len(),
            all == rule_texts(rules@),
            around == (Around {
                dir_name: name_of_dir(work_dir@),
                listings: listings@,
                present: present@.dom(),
            }),
            dir_name@ == around.dir_name,
            start == (Expanding {
                done: Seq::empty(),
                declared: Seq::empty(),
                bins: Map::empty(),
            }),
            start.rules(all, around) == state@.rules(all.skip(i as int), around),
        decreases rules.len() - i,
    {
        proof {
            assert(all.skip(i as int)[0] == rules@[i as int]@);
            assert(all.skip(i as int).drop_first() =~= all.skip(i + 1));
        }
        match expand_one_rule(&mut state, &rules[i], dir_name, listings, present) {
            Ok(()) => {},
            Err(m) => {
                return Err(m);
            },
        }
        i += 1;
    }
    assert(all.skip(i as int) =~= Seq::empty());
    match check_repeated(&state.done) {
        Ok(()) => {},
        Err(m) => {
            return Err(m);
        },
    }
    match check_owned(&state.done) {
        Ok(()) => {},
        Err(m) => {
            return Err(m);
        },
    }
    Ok(state.done)
}

// ------------------------------------------------ what has to be looked up

/// The names of a list that stand for files of the directory itself.
pub open spec fn local_files(names: Seq<Seq<char>>) -> Seq<Seq<char>>
    decreases names.len(),
{
    if names.len() == 0 {
        Seq::empty()
    } else {
        (if names_local_file(names[0]) {
            seq![names[0]]
        } else {
            Seq::empty()
        }) + local_files(names.drop_first())
    }
}

/// The names in rules that stand for files of the directory itself.
pub open spec fn files_of_rules(rules: Seq<RuleText>) -> Seq<Seq<char>>
    decreases rules.len(),
{
    if rules.len() == 0 {
        Seq::empty()
    } else {
        local_files(rules[0].inputs) + local_files(rules[0].order_only_inputs) + files_of_rules(
            rules.drop_first(),
        )
    }
}

fn add_local_files(names: &Vec<String>, out: &mut Vec<String>)
    ensures
        texts(final(out)@) == texts(old(out)@) + local_files(texts(names@)),
{
    let ghost all = texts(names@);
    let ghost start = texts(out@);
    let mut i: usize = 0;
    proof {
        assert(all.skip(0) =~= all);
    }
    while i < names.len()
        invariant
            i <= names.len(),
            all == texts(names@),
            start + local_files(all) == texts(out@) + local_files(all.skip(i as int)),
        decreases names.len() - i,
    {
        let s = names[i].as_str();
        let ghost before = texts(out@);
        let ghost rest = local_files(all.skip(i + 1));
        proof {
            assert(all.skip(i as int)[0] == s@);
            assert(all.skip(i as int).drop_first() =~= all.skip(i + 1));
        }
        if is_explicit_file_ref(s) {
            let ghost b = out@;
            out.push(copy_str(s));
            proof {
                assert(texts(out@) =~= before.push(s@));
                assert(before + (seq![s@] + rest) =~= texts(out@) + rest);
            }
        } else {
            assert(before + (Seq::<Seq<char>>::empty() + rest) =~= before + rest);
        }
        i += 1;
    }
    proof {
        assert(all.skip(i as int) =~= Seq::empty());
        assert(texts(out@) + Seq::<Seq<char>>::empty() =~= texts(out@));
    }
}

/// The names in rules whose files have to be looked for.
pub fn files_to_find(rules: &[Rule]) -> (r: Vec<String>)
    ensures
        texts(r@) == files_of_rules(rule_texts(rules@)),
{
    let ghost all = rule_texts(rules@);
    let mut out: Vec<String> = Vec::new();
    let mut i: usize = 0;
    proof {
        assert(all.skip(0) =~= all);
        assert(texts(out@) + files_of_rules(all) =~= files_of_rules(all));
    }
    while i < rules.len()
        invariant
            i <= rules.len(),
            all == rule_texts(rules@),
            files_of_rules(all) == texts(out@) + files_of_rules(all.skip(i as int)),
        decreases rules.len() - i,
    {
        let ghost before = texts(out@);
        proof {
            assert(all.skip(i as int)[0] == rules@[i as int]@);
            assert(all.skip(i as int).drop_first() =~= all.skip(i + 1));
        }
        add_local_files(&rules[i].inputs, &mut out);
        add_local_files(&rules[i].order_only_inputs, &mut out);
        proof {
            let a = local_files(rules@[i as int]@.inputs);
            let b = local_files(rules@[i as int]@.order_only_inputs);
            let rest = files_of_rules(all.skip(i + 1));
            assert(before + (a + b + rest) =~= texts(out@) + rest);
        }
        i += 1;
    }
    proof {
        assert(all.skip(i as int) =~= Seq::empty());
        assert(texts(out@) + Seq::<Seq<char>>::empty() =~= texts(out@));
    }
    out
}

/// The directories that the patterns of a list search.
pub open spec fn pattern_dirs(names: Seq<Seq<char>>) -> Seq<Seq<char>>
    decreases names.len(),
{
    if names.len() == 0 {
        Seq::empty()
    } else {
        (if has_glob(names[0]) {
            seq![dir_part(names[0])]
        } else {
            Seq::empty()
        }) + pattern_dirs(names.drop_first())
    }
}

fn add_pattern_dirs(names: &Vec<String>, out: &mut Vec<String>)
    ensures
        texts(final(out)@) == texts(old(out)@) + pattern_dirs(texts(names@)),
{
    let ghost all = texts(names@);
    let ghost start = texts(out@);
    let mut i: usize = 0;
    assert(all.skip(0) =~= all);
    while i < names.len()
        invariant
            i <= names.len(),
            all == texts(names@),
            start + pattern_dirs(all) == texts(out@) + pattern_dirs(all.skip(i as int)),
        decreases names.len() - i,
    {
        let s = names[i].as_str();
        let ghost before = texts(out@);
        let ghost rest = pattern_dirs(all.skip(i + 1));
        proof {
            assert(all.skip(i as int)[0] == s@);
            assert(all.skip(i as int).drop_first() =~= all.skip(i + 1));
        }
        if is_glob(s) {
            let d = copy_str(glob_dir(s));
            let ghost dt = d@;
            out.push(d);
            proof {
                assert(texts(out@) =~= before.push(dt));
                assert(before + (seq![dt] + rest) =~= texts(out@) + rest);
            }
        } else {
            assert(before + (Seq::<Seq<char>>::empty() + rest) =~= before + rest);
        }
        i += 1;
    }
    proof {
        assert(all.skip(i as int) =~= Seq::empty());
        assert(texts(out@) + Seq::<Seq<char>>::empty() =~= texts(out@));
    }
}

impl Expanding {
    /// The directories that a rule searches: those of the patterns among its
    /// inputs, with the files of bins in place of their names.
    pub open spec fn searched_by(self, rule: RuleText) -> Seq<Seq<char>> {
        if rule.had_inputs && rule.inputs.len() == 0 {
            Seq::empty()
        } else {
            pattern_dirs(open_bins(rule.inputs, self.bins))
        }
    }

    /// The directories that rules search, up to the first error.
    pub open spec fn searched(self, rules: Seq<RuleText>, around: Around) -> Seq<Seq<char>>
        decreases rules.len(),
    {
        if rules.len() == 0 {
            Seq::empty()
        } else {
            self.searched_by(rules[0]) + match self.rule(rules[0], around) {
                Err(_) => Seq::empty(),
                Ok(s) => s.searched(rules.drop_first(), around),
            }
        }
    }
}

/// The directories that the expansion of rules searches.
pub open spec fn searched_dirs(rules: Seq<RuleText>, around: Around) -> Seq<Seq<char>> {
    let start = Expanding { done: Seq::empty(), declared: Seq::empty(), bins: Map::empty() };
    start.searched(rules, around)
}

/// Names without those of another list, each as often as it stands there.
pub open spec fn not_among(names: Seq<Seq<char>>, known: Seq<Seq<char>>) -> Seq<Seq<char>>
    decreases names.len(),
{
    if names.len() == 0 {
        Seq::empty()
    } else {
        let before = not_among(names.drop_last(), known);
        if known.contains(names.last()) {
            before
        } else {
            before.push(names.last())
        }
    }
}

fn drop_known(names: &Vec<String>, known: &[String]) -> (r: Vec<String>)
    ensures
        texts(r@) == not_among(texts(names@), texts(known@)),
{
    let ghost all = texts(names@);
    let mut out: Vec<String> = Vec::new();
    let mut i: usize = 0;
    proof {
        assert(all.take(0) =~= Seq::empty());
        assert(texts(out@) =~= Seq::empty());
    }
    while i < names.len()
        invariant
            i <= names.len(),
            all == texts(names@),
            texts(out@) == not_among(all.take(i as int), texts(known@)),
        decreases names.len() - i,
    {
        let s = names[i].as_str();
        let ghost before = out@;
        proof {
            assert(all.take(i + 1).drop_last() =~= all.take(i as int));
            assert(all.take(i + 1).last() == s@);
        }
        if !list_contains(known, s) {
            out.push(copy_str(s));
            assert(texts(out@) =~= texts(before).push(s@));
        }
        i += 1;
    }
    assert(all.take(all.len() as int) =~= all);
    out
}

/// The directories, seen from that of the rules, which still have to be listed
/// before the rules can be expanded: those that patterns search, as far as the
/// expansion comes with the listings there are, without those that were asked for
/// before. When there are none the listings are complete.
pub fn dirs_to_list(
    rules: &[Rule],
    work_dir: &str,
    listings: &Listings,
    present: &OrdMap<String, ()>,
    asked: &[String],
) -> (r: Vec<String>)
    ensures
        texts(r@) == not_among(
            searched_dirs(
                rule_texts(rules@),
                (Around {
                    dir_name: name_of_dir(work_dir@),
                    listings: listings@,
                    present: present@.dom(),
                }),
            ),
            texts(asked@),
        ),
{
    let dir_name = match str_file_name(work_dir) {
        Some(n) => n,
        None => ".",
    };
    let ghost around = Around {
        dir_name: name_of_dir(work_dir@),
        listings: listings@,
        present: present@.dom(),
    };
    let ghost all = rule_texts(rules@);
    let mut state = Progress { done: Vec::new(), declared: Vec::new(), bins: OrdMap::new() };
    let mut out: Vec<String> = Vec::new();
    let mut i: usize = 0;
    let mut failed = false;
    proof {
        assert(all.skip(0) =~= all);
        assert(state@ =~= (Expanding {
            done: Seq::empty(),
            declared: Seq::empty(),
            bins: Map::empty(),
        }));
        assert(texts(out@) + state@.searched(all, around) =~= state@.searched(all, around));
    }
    while i < rules.len() && !failed
        invariant
            i <= rules.len(),
            all == rule_texts(rules@),
            around == (Around {
                dir_name: name_of_dir(work_dir@),
                listings: listings@,
                present: present@.dom(),
            }),
            dir_name@ == around.dir_name,
            searched_dirs(all, around) == if failed {
                texts(out@)
            } else {
                texts(out@) + state@.searched(all.skip(i as int), around)
            },
        decreases rules.len() - i,
    {
        let rule = &rules[i];
        let ghost before = texts(out@);
        let ghost own = state@.searched_by(rule@);
        let ghost started = state@;
        proof {
            assert(all.skip(i as int)[0] == rules@[i as int]@);
            assert(all.skip(i as int).drop_first() =~= all.skip(i + 1));
            assert(texts(rule.inputs@).len() == rule.inputs@.len());
        }
        if !(rule.had_inputs && rule.inputs.len() == 0) {
            let inputs = opened(&rule.inputs, &state.bins);
            add_pattern_dirs(&inputs, &mut out);
        }
        assert(texts(out@) =~= before + own);
        match expand_one_rule(&mut state, rule, dir_name, listings, present) {
            Ok(()) => {
                let ghost rest = state@.searched(all.skip(i + 1), around);
                assert(before + (own + rest) =~= texts(out@) + rest);
            },
            Err(_) => {
                failed = true;
                assert(before + (own + Seq::<Seq<char>>::empty()) =~= texts(out@));
            },
        }
        i += 1;
    }
    proof {
        if !failed {
            assert(all.skip(i as int) =~= Seq::empty());
            assert(texts(out@) + Seq::<Seq<char>>::empty() =~= texts(out@));
        }
    }
    drop_known(&out, asked)
}

} // verus!
