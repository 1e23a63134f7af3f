//! `%`-flags in commands and output patterns.
use vstd::prelude::*;

use crate::paths::{
    ext_of, file_name, parent, stem_of, str_ext_of, str_file_name, str_parent, str_stem_of,
};
use crate::text::{
    concat3, copy_str, join, join_strings, same, split, str_first_is, str_split, texts, to_chars,
};

verus! {

/// An input file, as the `%`-flags see it.
#[derive(Debug)]
pub struct InputFile {
    /// Path relative to the directory of the rule.
    pub path: String,
    /// File name without the directory.
    pub base: String,
    /// File name without its extension.
    pub base_no_ext: String,
    /// Extension, without the dot.
    pub ext: String,
    /// Directory of the path.
    pub dir: String,
}

/// An input file as texts.
#[verifier::ext_equal]
pub struct InputText {
    pub path: Seq<char>,
    pub base: Seq<char>,
    pub base_no_ext: Seq<char>,
    pub ext: Seq<char>,
    pub dir: Seq<char>,
}

impl View for InputFile {
    type V = InputText;

    open spec fn view(&self) -> InputText {
        InputText {
            path: self.path@,
            base: self.base@,
            base_no_ext: self.base_no_ext@,
            ext: self.ext@,
            dir: self.dir@,
        }
    }
}

/// A text, empty where there is none.
pub open spec fn or_empty(s: Option<Seq<char>>) -> Seq<char> {
    match s {
        Some(t) => t,
        None => Seq::empty(),
    }
}

/// The parts of a path that the `%`-flags name.
pub open spec fn input_of(path: Seq<char>) -> InputText {
    InputText {
        path,
        base: or_empty(file_name(path)),
        base_no_ext: match file_name(path) {
            Some(n) => stem_of(n),
            None => Seq::empty(),
        },
        ext: match file_name(path) {
            Some(n) => ext_of(n),
            None => Seq::empty(),
        },
        dir: or_empty(parent(path)),
    }
}

impl InputFile {
    /// The input file at a path.
    pub fn new(path: &str) -> (r: Self)
        ensures
            r@ == input_of(path@),
    {
        let dir = match str_parent(path) {
            Some(d) => copy_str(d),
            None => String::new(),
        };
        match str_file_name(path) {
            Some(name) => InputFile {
                path: copy_str(path),
                base: copy_str(name),
                base_no_ext: copy_str(str_stem_of(name)),
                ext: copy_str(str_ext_of(name)),
                dir,
            },
            None => InputFile {
                path: copy_str(path),
                base: String::new(),
                base_no_ext: String::new(),
                ext: String::new(),
                dir,
            },
        }
    }
}

/// The input files of a list, as texts.
pub open spec fn input_texts(v: Seq<InputFile>) -> Seq<InputText> {
    Seq::new(v.len(), |i: int| v[i]@)
}

/// The part of an input that a field of it holds, for each input.
pub open spec fn paths_of(v: Seq<InputText>) -> Seq<Seq<char>> {
    Seq::new(v.len(), |i: int| v[i].path)
}

pub open spec fn bases_of(v: Seq<InputText>) -> Seq<Seq<char>> {
    Seq::new(v.len(), |i: int| v[i].base)
}

pub open spec fn stems_of(v: Seq<InputText>) -> Seq<Seq<char>> {
    Seq::new(v.len(), |i: int| v[i].base_no_ext)
}

/// A path without the extension of its last component.
pub open spec fn without_extension(path: Seq<char>) -> Seq<char> {
    match file_name(path) {
        Some(name) => match parent(path) {
            Some(p) => if p.len() == 0 {
                stem_of(name)
            } else {
                p.push('/') + stem_of(name)
            },
            None => stem_of(name),
        },
        None => Seq::empty(),
    }
}

/// What a `%`-flag of a command stands for.
pub open spec fn flag_value(
    c: char,
    inputs: Seq<InputText>,
    outputs: Seq<Seq<char>>,
    order_only: Seq<Seq<char>>,
    dir_name: Seq<char>,
) -> Seq<char> {
    if c == '%' {
        seq!['%']
    } else if c == 'f' {
        join(paths_of(inputs), " "@)
    } else if c == 'b' {
        join(bases_of(inputs), " "@)
    } else if c == 'B' {
        join(stems_of(inputs), " "@)
    } else if c == 'e' {
        if inputs.len() > 0 {
            inputs[0].ext
        } else {
            Seq::empty()
        }
    } else if c == 'd' {
        dir_name
    } else if c == 'o' {
        join(outputs, " "@)
    } else if c == 'O' {
        if outputs.len() > 0 {
            without_extension(outputs[0])
        } else {
            Seq::empty()
        }
    } else if c == 'i' {
        join(order_only, " "@)
    } else {
        seq!['%', c]
    }
}

/// A text in which each `%` and the character after it are replaced by what
/// `value` gives for that character. A `%` at the end stays.
pub open spec fn substitute(s: Seq<char>, value: spec_fn(char) -> Seq<char>) -> Seq<char>
    decreases s.len(),
{
    if s.len() == 0 {
        Seq::empty()
    } else if s[0] == '%' && s.len() >= 2 {
        value(s[1]) + substitute(s.skip(2), value)
    } else {
        seq![s[0]] + substitute(s.skip(1), value)
    }
}

/// A text without `%` stays as it is.
pub proof fn substitute_without_flags(s: Seq<char>, value: spec_fn(char) -> Seq<char>)
    requires
        !s.contains('%'),
    ensures
        substitute(s, value) == s,
    decreases s.len(),
{
    if s.len() > 0 {
        assert(s[0] != '%');
        let t = s.skip(1);
        assert forall|i: int| 0 <= i < t.len() implies t[i] != '%' by {
            assert(t[i] == s[i + 1]);
        }
        substitute_without_flags(t, value);
        assert(seq![s[0]] + t =~= s);
    } else {
        assert(s =~= Seq::empty());
    }
}

/// The command that a rule's command stands for.
pub open spec fn command_text(
    command: Seq<char>,
    inputs: Seq<InputText>,
    outputs: Seq<Seq<char>>,
    order_only: Seq<Seq<char>>,
    dir_name: Seq<char>,
) -> Seq<char> {
    substitute(command, |c: char| flag_value(c, inputs, outputs, order_only, dir_name))
}

/// What a `%`-flag of an output pattern stands for.
pub open spec fn pattern_value(c: char, input: InputText) -> Seq<char> {
    if c == '%' {
        seq!['%']
    } else if c == 'B' {
        input.base_no_ext
    } else if c == 'b' {
        input.base
    } else if c == 'e' {
        input.ext
    } else if c == 'd' {
        input.dir
    } else if c == 'f' {
        input.path
    } else {
        seq!['%', c]
    }
}

/// The output that a pattern stands for, for one input.
pub open spec fn output_text(pattern: Seq<char>, input: InputText) -> Seq<char> {
    substitute(pattern, |c: char| pattern_value(c, input))
}

/// Which part of an input is wanted.
#[derive(Clone, Copy, PartialEq, Eq, Structural)]
enum Part {
    Path,
    Base,
    Stem,
}

fn parts_of(inputs: &[InputFile], part: Part) -> (r: Vec<String>)
    ensures
        part == Part::Path ==> texts(r@) == paths_of(input_texts(inputs@)),
        part == Part::Base ==> texts(r@) == bases_of(input_texts(inputs@)),
        part == Part::Stem ==> texts(r@) == stems_of(input_texts(inputs@)),
{
    let mut out: Vec<String> = Vec::new();
    let mut i: usize = 0;
    while i < inputs.len()
        invariant
            i <= inputs@.len(),
            out@.len() == i,
            forall|j: int|
                0 <= j < i ==> (#[trigger] out@[j])@ == match part {
                    Part::Path => inputs@[j].path@,
                    Part::Base => inputs@[j].base@,
                    Part::Stem => inputs@[j].base_no_ext@,
                },
        decreases inputs.len() - i,
    {
        let s = match part {
            Part::Path => inputs[i].path.clone(),
            Part::Base => inputs[i].base.clone(),
            Part::Stem => inputs[i].base_no_ext.clone(),
        };
        out.push(s);
        i += 1;
    }
    proof {
        let t = input_texts(inputs@);
        if part == Part::Path {
            assert(texts(out@) =~= paths_of(t));
        } else if part == Part::Base {
            assert(texts(out@) =~= bases_of(t));
        } else {
            assert(texts(out@) =~= stems_of(t));
        }
    }
    out
}

fn str_without_extension(path: &str) -> (r: String)
    ensures
        r@ == without_extension(path@),
{
    match str_file_name(path) {
        Some(name) => {
            let mut out = String::new();
            match str_parent(path) {
                Some(p) => {
                    if !p.is_empty() {
                        out.append(p);
                        out.push('/');
                    }
                    assert(p@.len() == 0 ==> p@ =~= Seq::<char>::empty());
                },
                None => {},
            }
            let ghost head = out@;
            out.append(str_stem_of(name));
            proof {
                if head.len() == 0 {
                    assert(head + stem_of(name@) =~= stem_of(name@));
                } else {
                    assert(Seq::<char>::empty() + parent(path@)->0 =~= parent(path@)->0);
                }
            }
            out
        },
        None => String::new(),
    }
}

fn command_flag(
    c: char,
    inputs: &[InputFile],
    outputs: &[String],
    order_only: &[String],
    dir_name: &str,
) -> (r: String)
    ensures
        r@ == flag_value(c, input_texts(inputs@), texts(outputs@), texts(order_only@), dir_name@),
{
    if c == '%' {
        let mut s = String::new();
        s.push('%');
        assert(s@ =~= seq!['%']);
        s
    } else if c == 'f' {
        join_strings(parts_of(inputs, Part::Path).as_slice(), " ")
    } else if c == 'b' {
        join_strings(parts_of(inputs, Part::Base).as_slice(), " ")
    } else if c == 'B' {
        join_strings(parts_of(inputs, Part::Stem).as_slice(), " ")
    } else if c == 'e' {
        if inputs.len() > 0 {
            inputs[0].ext.clone()
        } else {
            String::new()
        }
    } else if c == 'd' {
        copy_str(dir_name)
    } else if c == 'o' {
        join_strings(outputs, " ")
    } else if c == 'O' {
        if outputs.len() > 0 {
            str_without_extension(outputs[0].as_str())
        } else {
            String::new()
        }
    } else if c == 'i' {
        join_strings(order_only, " ")
    } else {
        let mut s = String::new();
        s.push('%');
        s.push(c);
        assert(s@ =~= seq!['%', c]);
        s
    }
}

/// Expands the `%`-flags of a command.
///
/// - `%f`: all input paths, with spaces between them
/// - `%b`: the file names of all inputs
/// - `%B`: the file names of all inputs, without their extensions
/// - `%e`: the extension of the first input
/// - `%d`: the name of the directory of the rule
/// - `%o`: all outputs
/// - `%O`: the first output, without its extension
/// - `%i`: the order-only inputs
/// - `%%`: a `%`
pub fn expand_percent(
    command: &str,
    inputs: &[InputFile],
    outputs: &[String],
    order_only: &[String],
    dir_name: &str,
) -> (r: String)
    ensures
        r@ == command_text(
            command@,
            input_texts(inputs@),
            texts(outputs@),
            texts(order_only@),
            dir_name@,
        ),
{
    let v = to_chars(command);
    let mut out = String::new();
    let mut i: usize = 0;
    let ghost s = command@;
    let ghost value = |c: char|
        flag_value(c, input_texts(inputs@), texts(outputs@), texts(order_only@), dir_name@);
    proof {
        assert(s.skip(0) =~= s);
        assert(out@ + substitute(s, value) =~= substitute(s, value));
    }
    while i < v.len()
        invariant
            i <= v.len(),
            v@ == s,
            value == (|c: char|
                flag_value(c, input_texts(inputs@), texts(outputs@), texts(order_only@), dir_name@)),
            substitute(s, value) == out@ + substitute(s.skip(i as int), value),
        decreases v.len() - i,
    {
        let ghost rest = s.skip(i as int);
        let ghost done = out@;
        if v[i] == '%' && v.len() - i >= 2 {
            let t = command_flag(v[i + 1], inputs, outputs, order_only, dir_name);
            out.append(t.as_str());
            i += 2;
            assert(rest.skip(2) =~= s.skip(i as int));
            assert(out@ + substitute(rest.skip(2), value) =~= done + (value(rest[1]) + substitute(
                rest.skip(2),
                value,
            )));
        } else {
            out.push(v[i]);
            i += 1;
            assert(rest.skip(1) =~= s.skip(i as int));
            assert(out@ + substitute(rest.skip(1), value) =~= done + (seq![rest[0]] + substitute(
                rest.skip(1),
                value,
            )));
        }
    }
    assert(s.skip(v@.len() as int) =~= Seq::empty());
    assert(out@ + Seq::<char>::empty() =~= out@);
    out
}

fn pattern_flag(c: char, input: &InputFile) -> (r: String)
    ensures
        r@ == pattern_value(c, input@),
{
    if c == '%' {
        let mut s = String::new();
        s.push('%');
        assert(s@ =~= seq!['%']);
        s
    } else if c == 'B' {
        input.base_no_ext.clone()
    } else if c == 'b' {
        input.base.clone()
    } else if c == 'e' {
        input.ext.clone()
    } else if c == 'd' {
        input.dir.clone()
    } else if c == 'f' {
        input.path.clone()
    } else {
        let mut s = String::new();
        s.push('%');
        s.push(c);
        assert(s@ =~= seq!['%', c]);
        s
    }
}

/// Expands the `%`-flags of an output pattern for one input.
///
/// This serves foreach rules, where each input has outputs of its own.
pub fn expand_output_pattern(pattern: &str, input: &InputFile) -> (r: String)
    ensures
        r@ == output_text(pattern@, input@),
{
    let v = to_chars(pattern);
    let mut out = String::new();
    let mut i: usize = 0;
    let ghost s = pattern@;
    let ghost value = |c: char| pattern_value(c, input@);
    proof {
        assert(s.skip(0) =~= s);
        assert(out@ + substitute(s, value) =~= substitute(s, value));
    }
    while i < v.len()
        invariant
            i <= v.len(),
            v@ == s,
            value == (|c: char| pattern_value(c, input@)),
            substitute(s, value) == out@ + substitute(s.skip(i as int), value),
        decreases v.len() - i,
    {
        let ghost rest = s.skip(i as int);
        let ghost done = out@;
        if v[i] == '%' && v.len() - i >= 2 {
            let t = pattern_flag(v[i + 1], input);
            out.append(t.as_str());
            i += 2;
            assert(rest.skip(2) =~= s.skip(i as int));
            assert(out@ + substitute(rest.skip(2), value) =~= done + (value(rest[1]) + substitute(
                rest.skip(2),
                value,
            )));
        } else {
            out.push(v[i]);
            i += 1;
            assert(rest.skip(1) =~= s.skip(i as int));
            assert(out@ + substitute(rest.skip(1), value) =~= done + (seq![rest[0]] + substitute(
                rest.skip(1),
                value,
            )));
        }
    }
    assert(s.skip(v@.len() as int) =~= Seq::empty());
    assert(out@ + Seq::<char>::empty() =~= out@);
    out
}

/// Whether a part of a path is hidden: it begins with a dot, and is not one of
/// the names of a directory itself and the one above it.
pub open spec fn is_hidden_part(part: Seq<char>) -> bool {
    part.len() > 0 && part[0] == '.' && part != "."@ && part != ".."@
}

/// Whether a part of a path is hidden.
pub open spec fn has_hidden_part(path: Seq<char>) -> bool {
    exists|i: int|
        0 <= i < split(path, "/"@).len() && is_hidden_part(#[trigger] split(path, "/"@)[i])
}

/// What is said of an output that is hidden.
pub open spec fn hidden_output_text(path: Seq<char>) -> Seq<char> {
    "output file '"@ + path + "' is hidden"@
}

/// Checks that an output is not hidden, nor in a hidden directory.
pub fn validate_output_path(path: &str) -> (r: Result<(), String>)
    ensures
        match r {
            Ok(()) => !has_hidden_part(path@),
            Err(m) => has_hidden_part(path@) && m@ == hidden_output_text(path@),
        },
{
    proof {
        reveal_strlit("/");
    }
    let parts = str_split(path, "/");
    let ghost all = split(path@, "/"@);
    let mut i: usize = 0;
    while i < parts.len()
        invariant
            i <= parts.len(),
            all == texts(parts@),
            all == split(path@, "/"@),
            forall|j: int| 0 <= j < i ==> !is_hidden_part(#[trigger] all[j]),
        decreases parts.len() - i,
    {
        let part = parts[i].as_str();
        assert(all[i as int] == part@);
        if str_first_is(part, '.') && !same(part, ".") && !same(part, "..") {
            return Err(concat3("output file '", path, "' is hidden"));
        }
        i += 1;
    }
    assert(all.len() == parts@.len());
    Ok(())
}

} // verus!
