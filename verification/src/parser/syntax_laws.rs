//! What holds of the lines of a Tupfile and their parts.
use vstd::prelude::*;

use crate::parser::bang::{bare_name, macro_of, macro_rule, BangText};
use crate::parser::errors::ErrorText;
use crate::parser::line::{directive_of, eq_args, joined, line_of, lines_of, LineText};
use crate::parser::rule::{
    command_section, input_section, output_part, output_section, rule_of, CommandText, RuleText,
};
use crate::text::{
    find, find_char, find_char_is_first, is_space, split, strip_prefix, strip_suffix, trim, trim_end,
    trim_start, trim_start_matches, words,
};
use crate::text_laws::{
    is_word, pieces_make_up_the_text, trimming_takes_white_space_away, what_stands_between_is_left,
    white_space_parts_words,
};

verus! {

// ------------------------------------------------ directives

proof fn lemma_no_prefix(s: Seq<char>, p: Seq<char>, i: int)
    requires
        0 <= i < p.len(),
        i >= s.len() || s[i] != p[i],
    ensures
        !p.is_prefix_of(s),
        strip_prefix(s, p) is None,
{
    if p.is_prefix_of(s) {
        assert(s.subrange(0, p.len() as int)[i] == p[i]);
    }
}

proof fn lemma_prefix(p: Seq<char>, x: Seq<char>)
    ensures
        strip_prefix(p + x, p) == Some(x),
{
    assert((p + x).subrange(0, p.len() as int) =~= p);
    assert((p + x).skip(p.len() as int) =~= x);
}

proof fn lemma_words_of_lines()
    ensures
        "else"@ =~= seq!['e', 'l', 's', 'e'],
        "endif"@ =~= seq!['e', 'n', 'd', 'i', 'f'],
        "ifdef "@ =~= seq!['i', 'f', 'd', 'e', 'f', ' '],
        "ifndef "@ =~= seq!['i', 'f', 'n', 'd', 'e', 'f', ' '],
        "ifeq "@ =~= seq!['i', 'f', 'e', 'q', ' '],
        "ifneq "@ =~= seq!['i', 'f', 'n', 'e', 'q', ' '],
        "include "@ =~= seq!['i', 'n', 'c', 'l', 'u', 'd', 'e', ' '],
        "include_rules"@ =~= seq!['i', 'n', 'c', 'l', 'u', 'd', 'e', '_', 'r', 'u', 'l', 'e', 's'],
        "export "@ =~= seq!['e', 'x', 'p', 'o', 'r', 't', ' '],
        "import "@ =~= seq!['i', 'm', 'p', 'o', 'r', 't', ' '],
        "preload "@ =~= seq!['p', 'r', 'e', 'l', 'o', 'a', 'd', ' '],
        "run "@ =~= seq!['r', 'u', 'n', ' '],
        "error "@ =~= seq!['e', 'r', 'r', 'o', 'r', ' '],
        ".gitignore"@ =~= seq!['.', 'g', 'i', 't', 'i', 'g', 'n', 'o', 'r', 'e'],
{
    reveal_strlit("else");
    reveal_strlit("endif");
    reveal_strlit("ifdef ");
    reveal_strlit("ifndef ");
    reveal_strlit("ifeq ");
    reveal_strlit("ifneq ");
    reveal_strlit("include ");
    reveal_strlit("include_rules");
    reveal_strlit("export ");
    reveal_strlit("import ");
    reveal_strlit("preload ");
    reveal_strlit("run ");
    reveal_strlit("error ");
    reveal_strlit(".gitignore");
}

/// The lines that are one word stand for what that word says.
pub proof fn one_word_lines(n: usize, file: Seq<char>)
    ensures
        line_of("else"@, n, file) == Ok::<LineText, ErrorText>(LineText::Else),
        line_of("endif"@, n, file) == Ok::<LineText, ErrorText>(LineText::Endif),
        line_of("include_rules"@, n, file) == Ok::<LineText, ErrorText>(LineText::IncludeRules),
        line_of(".gitignore"@, n, file) == Ok::<LineText, ErrorText>(LineText::GitIgnore),
{
    lemma_words_of_lines();
    let s = "include_rules"@;
    lemma_no_prefix(s, "ifdef "@, 1);
    lemma_no_prefix(s, "ifndef "@, 1);
    lemma_no_prefix(s, "ifeq "@, 1);
    lemma_no_prefix(s, "ifneq "@, 1);
    lemma_no_prefix(s, "include "@, 7);
    assert(s[0] != "else"@[0]);
    let g = ".gitignore"@;
    lemma_no_prefix(g, "ifdef "@, 0);
    lemma_no_prefix(g, "ifndef "@, 0);
    lemma_no_prefix(g, "ifeq "@, 0);
    lemma_no_prefix(g, "ifneq "@, 0);
    lemma_no_prefix(g, "include "@, 0);
    lemma_no_prefix(g, "export "@, 0);
    lemma_no_prefix(g, "import "@, 0);
    lemma_no_prefix(g, "preload "@, 0);
    lemma_no_prefix(g, "run "@, 0);
    lemma_no_prefix(g, "error "@, 0);
    assert(g[0] == '.' && "else"@[0] == 'e' && "endif"@[0] == 'e' && s[0] == 'i');
    assert("endif"@[1] != "else"@[1]);
    assert(s[0] != "endif"@[0]);
}

/// A line that begins with one of the words of the language stands for it, and what
/// follows the word, without the white space around it, is what it is about.
pub proof fn lines_begin_with_their_word(x: Seq<char>, n: usize, file: Seq<char>)
    ensures
        line_of("ifdef "@ + x, n, file) == Ok::<LineText, ErrorText>(LineText::Ifdef(trim(x))),
        line_of("ifndef "@ + x, n, file) == Ok::<LineText, ErrorText>(LineText::Ifndef(trim(x))),
        line_of("include "@ + x, n, file) == Ok::<LineText, ErrorText>(LineText::Include(trim(x))),
        line_of("export "@ + x, n, file) == Ok::<LineText, ErrorText>(LineText::Export(trim(x))),
        line_of("import "@ + x, n, file) == Ok::<LineText, ErrorText>(LineText::Import(trim(x))),
        line_of("preload "@ + x, n, file) == Ok::<LineText, ErrorText>(LineText::Preload(trim(x))),
        line_of("run "@ + x, n, file) == Ok::<LineText, ErrorText>(LineText::Run(trim(x))),
        line_of("error "@ + x, n, file) == Ok::<LineText, ErrorText>(LineText::Error(trim(x))),
{
    lemma_ifdef_line(x, n, file);
    lemma_ifndef_line(x, n, file);
    lemma_include_line(x, n, file);
    lemma_export_line(x, n, file);
    lemma_import_line(x, n, file);
    lemma_preload_line(x, n, file);
    lemma_run_line(x, n, file);
    lemma_error_line(x, n, file);
}

proof fn lemma_ifdef_line(x: Seq<char>, n: usize, file: Seq<char>)
    ensures
        line_of("ifdef "@ + x, n, file) == Ok::<LineText, ErrorText>(LineText::Ifdef(trim(x))),
{
    lemma_words_of_lines();
    let s = "ifdef "@ + x;
    lemma_prefix("ifdef "@, x);
    assert(s[0] == 'i' && s[1] == 'f' && s[5] == ' ');
    assert("else"@[0] == 'e' && "else"@[1] == 'l');
    assert("endif"@[0] == 'e' && "endif"@[1] == 'n');
    assert("include_rules"@[0] == 'i' && "include_rules"@[1] == 'n' && "include_rules"@[7] == '_');
}

proof fn lemma_ifndef_line(x: Seq<char>, n: usize, file: Seq<char>)
    ensures
        line_of("ifndef "@ + x, n, file) == Ok::<LineText, ErrorText>(LineText::Ifndef(trim(x))),
{
    lemma_words_of_lines();
    let s = "ifndef "@ + x;
    lemma_prefix("ifndef "@, x);
    assert(s[0] == 'i' && s[1] == 'f' && s[6] == ' ');
    assert("else"@[0] == 'e' && "else"@[1] == 'l');
    assert("endif"@[0] == 'e' && "endif"@[1] == 'n');
    assert("include_rules"@[0] == 'i' && "include_rules"@[1] == 'n' && "include_rules"@[7] == '_');
    lemma_no_prefix(s, "ifdef "@, 2);
}

proof fn lemma_include_line(x: Seq<char>, n: usize, file: Seq<char>)
    ensures
        line_of("include "@ + x, n, file) == Ok::<LineText, ErrorText>(LineText::Include(trim(x))),
{
    lemma_words_of_lines();
    let s = "include "@ + x;
    lemma_prefix("include "@, x);
    assert(s[0] == 'i' && s[1] == 'n' && s[7] == ' ');
    assert("else"@[0] == 'e' && "else"@[1] == 'l');
    assert("endif"@[0] == 'e' && "endif"@[1] == 'n');
    assert("include_rules"@[0] == 'i' && "include_rules"@[1] == 'n' && "include_rules"@[7] == '_');
    lemma_no_prefix(s, "ifdef "@, 1);
    lemma_no_prefix(s, "ifndef "@, 1);
    lemma_no_prefix(s, "ifeq "@, 1);
    lemma_no_prefix(s, "ifneq "@, 1);
}

proof fn lemma_export_line(x: Seq<char>, n: usize, file: Seq<char>)
    ensures
        line_of("export "@ + x, n, file) == Ok::<LineText, ErrorText>(LineText::Export(trim(x))),
{
    lemma_words_of_lines();
    let s = "export "@ + x;
    lemma_prefix("export "@, x);
    assert(s[0] == 'e' && s[1] == 'x' && s[6] == ' ');
    assert("else"@[0] == 'e' && "else"@[1] == 'l');
    assert("endif"@[0] == 'e' && "endif"@[1] == 'n');
    assert("include_rules"@[0] == 'i' && "include_rules"@[1] == 'n' && "include_rules"@[7] == '_');
    lemma_no_prefix(s, "ifdef "@, 0);
    lemma_no_prefix(s, "ifndef "@, 0);
    lemma_no_prefix(s, "ifeq "@, 0);
    lemma_no_prefix(s, "ifneq "@, 0);
    lemma_no_prefix(s, "include "@, 0);
}

proof fn lemma_import_line(x: Seq<char>, n: usize, file: Seq<char>)
    ensures
        line_of("import "@ + x, n, file) == Ok::<LineText, ErrorText>(LineText::Import(trim(x))),
{
    lemma_words_of_lines();
    let s = "import "@ + x;
    lemma_prefix("import "@, x);
    assert(s[0] == 'i' && s[1] == 'm' && s[6] == ' ');
    assert("else"@[0] == 'e' && "else"@[1] == 'l');
    assert("endif"@[0] == 'e' && "endif"@[1] == 'n');
    assert("include_rules"@[0] == 'i' && "include_rules"@[1] == 'n' && "include_rules"@[7] == '_');
    lemma_no_prefix(s, "ifdef "@, 1);
    lemma_no_prefix(s, "ifndef "@, 1);
    lemma_no_prefix(s, "ifeq "@, 1);
    lemma_no_prefix(s, "ifneq "@, 1);
    lemma_no_prefix(s, "include "@, 1);
    lemma_no_prefix(s, "export "@, 0);
}

proof fn lemma_preload_line(x: Seq<char>, n: usize, file: Seq<char>)
    ensures
        line_of("preload "@ + x, n, file) == Ok::<LineText, ErrorText>(LineText::Preload(trim(x))),
{
    lemma_words_of_lines();
    let s = "preload "@ + x;
    lemma_prefix("preload "@, x);
    assert(s[0] == 'p' && s[1] == 'r' && s[7] == ' ');
    assert("else"@[0] == 'e' && "else"@[1] == 'l');
    assert("endif"@[0] == 'e' && "endif"@[1] == 'n');
    assert("include_rules"@[0] == 'i' && "include_rules"@[1] == 'n' && "include_rules"@[7] == '_');
    lemma_no_prefix(s, "ifdef "@, 0);
    lemma_no_prefix(s, "ifndef "@, 0);
    lemma_no_prefix(s, "ifeq "@, 0);
    lemma_no_prefix(s, "ifneq "@, 0);
    lemma_no_prefix(s, "include "@, 0);
    lemma_no_prefix(s, "export "@, 0);
    lemma_no_prefix(s, "import "@, 0);
}

proof fn lemma_run_line(x: Seq<char>, n: usize, file: Seq<char>)
    ensures
        line_of("run "@ + x, n, file) == Ok::<LineText, ErrorText>(LineText::Run(trim(x))),
{
    lemma_words_of_lines();
    let s = "run "@ + x;
    lemma_prefix("run "@, x);
    assert(s[0] == 'r' && s[1] == 'u' && s[3] == ' ');
    assert("else"@[0] == 'e' && "else"@[1] == 'l');
    assert("endif"@[0] == 'e' && "endif"@[1] == 'n');
    assert("include_rules"@[0] == 'i' && "include_rules"@[1] == 'n' && "include_rules"@[7] == '_');
    lemma_no_prefix(s, "ifdef "@, 0);
    lemma_no_prefix(s, "ifndef "@, 0);
    lemma_no_prefix(s, "ifeq "@, 0);
    lemma_no_prefix(s, "ifneq "@, 0);
    lemma_no_prefix(s, "include "@, 0);
    lemma_no_prefix(s, "export "@, 0);
    lemma_no_prefix(s, "import "@, 0);
    lemma_no_prefix(s, "preload "@, 0);
}

proof fn lemma_error_line(x: Seq<char>, n: usize, file: Seq<char>)
    ensures
        line_of("error "@ + x, n, file) == Ok::<LineText, ErrorText>(LineText::Error(trim(x))),
{
    lemma_words_of_lines();
    let s = "error "@ + x;
    lemma_prefix("error "@, x);
    assert(s[0] == 'e' && s[1] == 'r' && s[5] == ' ');
    assert("else"@[0] == 'e' && "else"@[1] == 'l');
    assert("endif"@[0] == 'e' && "endif"@[1] == 'n');
    assert("include_rules"@[0] == 'i' && "include_rules"@[1] == 'n' && "include_rules"@[7] == '_');
    lemma_no_prefix(s, "ifdef "@, 0);
    lemma_no_prefix(s, "ifndef "@, 0);
    lemma_no_prefix(s, "ifeq "@, 0);
    lemma_no_prefix(s, "ifneq "@, 0);
    lemma_no_prefix(s, "include "@, 0);
    lemma_no_prefix(s, "export "@, 1);
    lemma_no_prefix(s, "import "@, 0);
    lemma_no_prefix(s, "preload "@, 0);
    lemma_no_prefix(s, "run "@, 0);
}

proof fn lemma_find_comma(a: Seq<char>, b: Seq<char>)
    requires
        !a.contains(','),
    ensures
        find_char(a + seq![','] + b, ',') == Some(a.len() as int),
{
    let s = a + seq![','] + b;
    find_char_is_first(s, ',');
    assert(s[a.len() as int] == ',');
    assert(s.contains(s[a.len() as int]));
    match find_char(s, ',') {
        Some(k) => {
            if k < a.len() {
                assert(a.contains(a[k]));
                assert(s[k] == a[k]);
            } else if k > a.len() {
                assert(s[a.len() as int] != ',');
            }
        },
        None => {},
    }
}

/// What two texts are compared stands in parentheses with a comma between them, each
/// without the white space around it. Without a comma or parentheses it is an error.
pub proof fn comparisons_have_two_sides(a: Seq<char>, b: Seq<char>, n: usize, file: Seq<char>)
    requires
        !a.contains(','),
    ensures
        line_of("ifeq "@ + (seq!['('] + a + seq![','] + b + seq![')']), n, file) == Ok::<
            LineText,
            ErrorText,
        >(LineText::Ifeq(trim(a), trim(b))),
        line_of("ifneq "@ + (seq!['('] + a + seq![','] + b + seq![')']), n, file) == Ok::<
            LineText,
            ErrorText,
        >(LineText::Ifneq(trim(a), trim(b))),
        line_of("ifeq "@ + (seq!['('] + a + seq![')']), n, file) is Err,
        line_of("ifneq "@ + (seq!['('] + a + seq![')']), n, file) is Err,
{
    let args = seq!['('] + a + seq![','] + b + seq![')'];
    let one = seq!['('] + a + seq![')'];
    lemma_eq_args(a, b);
    lemma_comparison(args, n, file);
    lemma_comparison(one, n, file);
}

proof fn lemma_eq_args(a: Seq<char>, b: Seq<char>)
    requires
        !a.contains(','),
    ensures
        eq_args(seq!['('] + a + seq![','] + b + seq![')']) == Some((trim(a), trim(b))),
        eq_args(seq!['('] + a + seq![')']) is None,
{
    let args = seq!['('] + a + seq![','] + b + seq![')'];
    let one = seq!['('] + a + seq![')'];
    lemma_find_comma(a, b);
    let inner = a + seq![','] + b;
    let none = Seq::<char>::empty();
    what_stands_between_is_left(none, args, none);
    assert(none + args + none =~= args);
    what_stands_between_is_left(none, one, none);
    assert(none + one + none =~= one);
    assert(args.subrange(1, args.len() - 1) =~= inner);
    assert(one.subrange(1, one.len() - 1) =~= a);
    assert(inner.take(a.len() as int) =~= a);
    assert(inner.skip(a.len() as int + 1) =~= b);
    find_char_is_first(a, ',');
    match find_char(a, ',') {
        Some(k) => {
            assert(a.contains(a[k]));
        },
        None => {},
    }
}

proof fn lemma_comparison(args: Seq<char>, n: usize, file: Seq<char>)
    ensures
        eq_args(args) matches Some((a, b)) ==> {
            &&& line_of("ifeq "@ + args, n, file) == Ok::<LineText, ErrorText>(LineText::Ifeq(a, b))
            &&& line_of("ifneq "@ + args, n, file) == Ok::<LineText, ErrorText>(
                LineText::Ifneq(a, b),
            )
        },
        eq_args(args) is None ==> line_of("ifeq "@ + args, n, file) is Err && line_of(
            "ifneq "@ + args,
            n,
            file,
        ) is Err,
{
    lemma_words_of_lines();
    assert("else"@[0] == 'e' && "endif"@[0] == 'e');
    let s = "ifeq "@ + args;
    lemma_prefix("ifeq "@, args);
    assert(s[0] == 'i');
    lemma_no_prefix(s, "ifdef "@, 2);
    lemma_no_prefix(s, "ifndef "@, 2);
    let s = "ifneq "@ + args;
    lemma_prefix("ifneq "@, args);
    assert(s[0] == 'i');
    lemma_no_prefix(s, "ifdef "@, 2);
    lemma_no_prefix(s, "ifndef "@, 3);
    lemma_no_prefix(s, "ifeq "@, 2);
}

// ------------------------------------------------ statements

proof fn lemma_no_directive(line: Seq<char>, n: usize, file: Seq<char>)
    requires
        line.len() > 0,
        line[0] == ':' || line[0] == '!',
    ensures
        directive_of(line, n, file) is None,
{
    lemma_words_of_lines();
    lemma_no_prefix(line, "ifdef "@, 0);
    lemma_no_prefix(line, "ifndef "@, 0);
    lemma_no_prefix(line, "ifeq "@, 0);
    lemma_no_prefix(line, "ifneq "@, 0);
    lemma_no_prefix(line, "include "@, 0);
    lemma_no_prefix(line, "export "@, 0);
    lemma_no_prefix(line, "import "@, 0);
    lemma_no_prefix(line, "preload "@, 0);
    lemma_no_prefix(line, "run "@, 0);
    lemma_no_prefix(line, "error "@, 0);
    assert("else"@[0] == 'e' && "endif"@[0] == 'e' && "include_rules"@[0] == 'i'
        && ".gitignore"@[0] == '.');
}

/// A line that begins with a colon is a rule: what follows the colon says which.
pub proof fn a_colon_begins_a_rule(text: Seq<char>, n: usize, file: Seq<char>)
    ensures
        rule_of(text, n) matches Ok(rule) ==> line_of(seq![':'] + text, n, file) == Ok::<
            LineText,
            ErrorText,
        >(LineText::Rule(rule)),
        rule_of(text, n) is Err ==> line_of(seq![':'] + text, n, file) is Err,
{
    let s = seq![':'] + text;
    lemma_no_directive(s, n, file);
    assert(s.skip(1) =~= text);
}

/// The words that begin a line of their own kind.
pub open spec fn is_keyword(w: Seq<char>) -> bool {
    ||| w == seq!['i', 'f', 'd', 'e', 'f']
    ||| w == seq!['i', 'f', 'n', 'd', 'e', 'f']
    ||| w == seq!['i', 'f', 'e', 'q']
    ||| w == seq!['i', 'f', 'n', 'e', 'q']
    ||| w == seq!['i', 'n', 'c', 'l', 'u', 'd', 'e']
    ||| w == seq!['e', 'x', 'p', 'o', 'r', 't']
    ||| w == seq!['i', 'm', 'p', 'o', 'r', 't']
    ||| w == seq!['p', 'r', 'e', 'l', 'o', 'a', 'd']
    ||| w == seq!['r', 'u', 'n']
    ||| w == seq!['e', 'r', 'r', 'o', 'r']
}

proof fn lemma_word_before_space(name: Seq<char>, rest: Seq<char>, word: Seq<char>)
    requires
        !name.contains(' '),
        !word.contains(' '),
        name != word,
    ensures
        strip_prefix(name + seq![' '] + rest, word + seq![' ']) is None,
{
    let s = name + seq![' '] + rest;
    let p = word + seq![' '];
    if p.is_prefix_of(s) {
        assert(forall|i: int| 0 <= i < p.len() ==> s[i] == #[trigger] p[i]) by {
            assert forall|i: int| 0 <= i < p.len() implies s[i] == #[trigger] p[i] by {
                assert(s.subrange(0, p.len() as int)[i] == p[i]);
            }
        }
        if word.len() < name.len() {
            assert(p[word.len() as int] == ' ');
            assert(s[word.len() as int] == name[word.len() as int]);
            assert(name.contains(name[word.len() as int]));
        } else if name.len() < word.len() {
            assert(s[name.len() as int] == ' ');
            assert(p[name.len() as int] == word[name.len() as int]);
            assert(word.contains(word[name.len() as int]));
        } else {
            assert forall|i: int| 0 <= i < name.len() implies name[i] == word[i] by {
                assert(s[i] == p[i]);
            }
            assert(name =~= word);
        }
    }
}

proof fn lemma_statement(name: Seq<char>, rest: Seq<char>, n: usize, file: Seq<char>)
    requires
        !name.contains(' '),
        !is_keyword(name),
        rest.len() > 0,
    ensures
        directive_of(name + seq![' '] + rest, n, file) is None,
{
    lemma_words_of_lines();
    let s = name + seq![' '] + rest;
    assert(s[name.len() as int] == ' ');
    let a = seq!['i', 'f', 'd', 'e', 'f'];
    assert(a + seq![' '] =~= "ifdef "@);
    lemma_word_before_space(name, rest, a);
    let a = seq!['i', 'f', 'n', 'd', 'e', 'f'];
    assert(a + seq![' '] =~= "ifndef "@);
    lemma_word_before_space(name, rest, a);
    let a = seq!['i', 'f', 'e', 'q'];
    assert(a + seq![' '] =~= "ifeq "@);
    lemma_word_before_space(name, rest, a);
    let a = seq!['i', 'f', 'n', 'e', 'q'];
    assert(a + seq![' '] =~= "ifneq "@);
    lemma_word_before_space(name, rest, a);
    let a = seq!['i', 'n', 'c', 'l', 'u', 'd', 'e'];
    assert(a + seq![' '] =~= "include "@);
    lemma_word_before_space(name, rest, a);
    let a = seq!['e', 'x', 'p', 'o', 'r', 't'];
    assert(a + seq![' '] =~= "export "@);
    lemma_word_before_space(name, rest, a);
    let a = seq!['i', 'm', 'p', 'o', 'r', 't'];
    assert(a + seq![' '] =~= "import "@);
    lemma_word_before_space(name, rest, a);
    let a = seq!['p', 'r', 'e', 'l', 'o', 'a', 'd'];
    assert(a + seq![' '] =~= "preload "@);
    lemma_word_before_space(name, rest, a);
    let a = seq!['r', 'u', 'n'];
    assert(a + seq![' '] =~= "run "@);
    lemma_word_before_space(name, rest, a);
    let a = seq!['e', 'r', 'r', 'o', 'r'];
    assert(a + seq![' '] =~= "error "@);
    lemma_word_before_space(name, rest, a);
    let k = name.len() as int;
    if s == "else"@ {
        assert("else"@[k] == ' ');
    }
    if s == "endif"@ {
        assert("endif"@[k] == ' ');
    }
    if s == "include_rules"@ {
        assert("include_rules"@[k] == ' ');
    }
    if s == ".gitignore"@ {
        assert(".gitignore"@[k] == ' ');
    }
}

proof fn lemma_find_at(a: Seq<char>, pat: Seq<char>, b: Seq<char>)
    requires
        !a.contains(' '),
        pat.len() > 0,
        pat[0] == ' ',
    ensures
        find(a + pat + b, pat) == Some(a.len() as int),
    decreases a.len(),
{
    let s = a + pat + b;
    if a.len() == 0 {
        assert(s.subrange(0, pat.len() as int) =~= pat);
    } else {
        let rest = a.drop_first();
        assert(a.contains(a[0]));
        assert(!rest.contains(' ')) by {
            if rest.contains(' ') {
                let i = choose|i: int| 0 <= i < rest.len() && rest[i] == ' ';
                assert(a[i + 1] == ' ');
            }
        }
        lemma_find_at(rest, pat, b);
        assert(s[0] == a[0]);
        lemma_no_prefix(s, pat, 0);
        assert(s.drop_first() =~= rest + pat + b);
    }
}

proof fn lemma_name(name: Seq<char>)
    requires
        is_word(name),
    ensures
        !name.contains(' '),
        trim(name) == name,
{
    assert(is_space(' '));
    assert(!name.contains(' ')) by {
        if name.contains(' ') {
            let i = choose|i: int| 0 <= i < name.len() && name[i] == ' ';
            assert(is_space(name[i]));
        }
    }
    let none = Seq::<char>::empty();
    what_stands_between_is_left(none, name, none);
    assert(none + name + none =~= name);
}

#[verifier::spinoff_prover]
proof fn lemma_append(name: Seq<char>, value: Seq<char>, n: usize, file: Seq<char>)
    requires
        is_word(name),
        name[0] != ':' && name[0] != '!',
        !is_keyword(name),
    ensures
        line_of(name + " += "@ + value, n, file) == Ok::<LineText, ErrorText>(
            LineText::VarAppend { name, value },
        ),
{
    reveal_strlit(" += ");
    lemma_name(name);
    let k = name.len() as int;
    let s = name + " += "@ + value;
    lemma_find_at(name, " += "@, value);
    assert(s =~= name + seq![' '] + (seq!['+', '=', ' '] + value));
    lemma_statement(name, seq!['+', '=', ' '] + value, n, file);
    assert(s.take(k) =~= name);
    assert(s.skip(k + 4) =~= value);
    assert(s[0] == name[0]);
}

#[verifier::spinoff_prover]
proof fn lemma_assign(name: Seq<char>, value: Seq<char>, n: usize, file: Seq<char>)
    requires
        is_word(name),
        name[0] != ':' && name[0] != '!',
        !is_keyword(name),
        find(name + " = "@ + value, " += "@) is None,
    ensures
        line_of(name + " = "@ + value, n, file) == Ok::<LineText, ErrorText>(
            LineText::VarAssign { name, value },
        ),
{
    reveal_strlit(" = ");
    lemma_name(name);
    let k = name.len() as int;
    let s = name + " = "@ + value;
    lemma_find_at(name, " = "@, value);
    assert(s =~= name + seq![' '] + (seq!['=', ' '] + value));
    lemma_statement(name, seq!['=', ' '] + value, n, file);
    assert(s.take(k) =~= name);
    assert(s.skip(k + 3) =~= value);
    assert(s[0] == name[0]);
}

#[verifier::spinoff_prover]
proof fn lemma_assign_at_once(name: Seq<char>, value: Seq<char>, n: usize, file: Seq<char>)
    requires
        is_word(name),
        name[0] != ':' && name[0] != '!',
        !is_keyword(name),
        find(name + " := "@ + value, " += "@) is None,
        find(name + " := "@ + value, " = "@) is None,
    ensures
        line_of(name + " := "@ + value, n, file) == Ok::<LineText, ErrorText>(
            LineText::VarAssign { name, value },
        ),
{
    reveal_strlit(" := ");
    lemma_name(name);
    let k = name.len() as int;
    let s = name + " := "@ + value;
    lemma_find_at(name, " := "@, value);
    assert(s =~= name + seq![' '] + (seq![':', '=', ' '] + value));
    lemma_statement(name, seq![':', '=', ' '] + value, n, file);
    assert(s.take(k) =~= name);
    assert(s.skip(k + 4) =~= value);
    assert(s[0] == name[0]);
}

/// An assignment names a variable before ` = ` or ` := ` and gives the value behind it as
/// it stands; ` += ` appends in the same way. The name is a word that begins no other
/// kind of line.
pub proof fn assignments_are_read(name: Seq<char>, value: Seq<char>, n: usize, file: Seq<char>)
    requires
        is_word(name),
        name[0] != ':' && name[0] != '!',
        !is_keyword(name),
    ensures
        line_of(name + " += "@ + value, n, file) == Ok::<LineText, ErrorText>(
            LineText::VarAppend { name, value },
        ),
        find(name + " = "@ + value, " += "@) is None ==> line_of(name + " = "@ + value, n, file)
            == Ok::<LineText, ErrorText>(LineText::VarAssign { name, value }),
        find(name + " := "@ + value, " += "@) is None && find(name + " := "@ + value, " = "@)
            is None ==> line_of(name + " := "@ + value, n, file) == Ok::<LineText, ErrorText>(
            LineText::VarAssign { name, value },
        ),
{
    lemma_append(name, value, n, file);
    if find(name + " = "@ + value, " += "@) is None {
        lemma_assign(name, value, n, file);
    }
    if find(name + " := "@ + value, " += "@) is None && find(name + " := "@ + value, " = "@)
        is None {
        lemma_assign_at_once(name, value, n, file);
    }
}

/// The definition of a macro begins with a `!` and its name; what it stands for follows
/// behind ` = `.
pub proof fn macro_definitions_are_read(
    name: Seq<char>,
    definition: Seq<char>,
    n: usize,
    file: Seq<char>,
)
    requires
        !name.contains(' '),
    ensures
        line_of(seq!['!'] + name + " = "@ + definition, n, file) == Ok::<LineText, ErrorText>(
            LineText::BangDef { name, definition },
        ),
{
    reveal_strlit(" = ");
    let a = seq!['!'] + name;
    assert(!a.contains(' ')) by {
        if a.contains(' ') {
            let i = choose|i: int| 0 <= i < a.len() && a[i] == ' ';
            assert(name[i - 1] == ' ');
            assert(name.contains(name[i - 1]));
        }
    }
    let s = a + " = "@ + definition;
    lemma_find_at(a, " = "@, definition);
    assert(s[0] == '!');
    lemma_no_directive(s, n, file);
    assert(s.subrange(1, a.len() as int) =~= name);
    assert(s.skip(a.len() as int + 3) =~= definition);
}

// ------------------------------------------------ the lines of a file

/// Whether a line says nothing: it is blank or a comment.
pub open spec fn says_nothing(line: Seq<char>) -> bool {
    trim(line).len() == 0 || trim(line)[0] == '#'
}

/// Every line that says something is read, in order, under its number; blank lines and
/// comments are left out.
pub proof fn lines_are_read_in_order(ls: Seq<Seq<char>>, file: Seq<char>)
    requires
        ls.len() <= usize::MAX,
    ensures
        lines_of(ls, file) matches Ok(out) ==> {
            &&& forall|i: int|
                0 <= i < out.len() ==> {
                    let n = (#[trigger] out[i]).1;
                    &&& 1 <= n <= ls.len()
                    &&& !says_nothing(ls[n - 1])
                    &&& line_of(trim(ls[n - 1]), n, file) == Ok::<LineText, ErrorText>(out[i].0)
                }
            &&& forall|i: int, j: int|
                0 <= i < j < out.len() ==> (#[trigger] out[i]).1 < (#[trigger] out[j]).1
            &&& forall|n: int|
                #![trigger ls[n - 1]]
                1 <= n <= ls.len() && !says_nothing(ls[n - 1]) ==> exists|i: int|
                    0 <= i < out.len() && (#[trigger] out[i]).1 == n
        },
        lines_of(ls, file) is Err <==> exists|n: int|
            #![trigger ls[n - 1]]
            1 <= n <= ls.len() && !says_nothing(ls[n - 1]) && line_of(
                trim(ls[n - 1]),
                n as usize,
                file,
            ) is Err,
    decreases ls.len(),
{
    if ls.len() > 0 {
        let before = ls.drop_last();
        let m = ls.len() as int;
        lines_are_read_in_order(before, file);
        assert forall|n: int| 1 <= n < m implies before[n - 1] == #[trigger] ls[n - 1] by {}
        assert(ls[m - 1] == ls.last());
        match lines_of(before, file) {
            Ok(had) => {
                if let Ok(out) = lines_of(ls, file) {
                    assert forall|i: int| 0 <= i < out.len() implies {
                        let n = (#[trigger] out[i]).1;
                        &&& 1 <= n <= ls.len()
                        &&& !says_nothing(ls[n - 1])
                        &&& line_of(trim(ls[n - 1]), n, file) == Ok::<LineText, ErrorText>(
                            out[i].0,
                        )
                    } by {
                        if i < had.len() {
                            assert(out[i] == had[i]);
                            assert(before[had[i].1 - 1] == ls[had[i].1 - 1]);
                        }
                    }
                    assert forall|i: int, j: int| 0 <= i < j < out.len() implies (
                    #[trigger] out[i]).1 < (#[trigger] out[j]).1 by {
                        assert(out[i] == had[i]);
                        if j < had.len() {
                            assert(out[j] == had[j]);
                        }
                    }
                    assert forall|n: int|
                        #![trigger ls[n - 1]]
                        1 <= n <= ls.len() && !says_nothing(ls[n - 1]) implies exists|i: int|
                        0 <= i < out.len() && (#[trigger] out[i]).1 == n by {
                        if n < m {
                            assert(before[n - 1] == ls[n - 1]);
                            let i = choose|i: int| 0 <= i < had.len() && (#[trigger] had[i]).1 == n;
                            assert(out[i].1 == n);
                        } else {
                            assert(out[had.len() as int].1 == n);
                        }
                    }
                    if exists|n: int|
                        #![trigger ls[n - 1]]
                        1 <= n <= ls.len() && !says_nothing(ls[n - 1]) && line_of(
                            trim(ls[n - 1]),
                            n as usize,
                            file,
                        ) is Err {
                        let n = choose|n: int|
                            #![trigger ls[n - 1]]
                            1 <= n <= ls.len() && !says_nothing(ls[n - 1]) && line_of(
                                trim(ls[n - 1]),
                                n as usize,
                                file,
                            ) is Err;
                        if n < m {
                            assert(before[n - 1] == ls[n - 1]);
                        }
                    }
                } else {
                    assert(ls[m - 1] == ls.last());
                }
            },
            Err(e) => {
                let n = choose|n: int|
                    #![trigger before[n - 1]]
                    1 <= n <= before.len() && !says_nothing(before[n - 1]) && line_of(
                        trim(before[n - 1]),
                        n as usize,
                        file,
                    ) is Err;
                assert(before[n - 1] == ls[n - 1]);
            },
        }
    }
}

/// A line that ends with a backslash goes on with the next one: a space stands in place of
/// the backslash, the line feed and the white space that begins the next line.
pub proof fn lines_go_on_behind_a_backslash(ls: Seq<Seq<char>>, a: Seq<char>, b: Seq<char>)
    requires
        !joined(ls).1,
        b.len() == 0 || b.last() != '\\',
    ensures
        joined(ls.push(a.push('\\')).push(b)).0 == joined(ls).0 + a + seq![' '] + trim_start(b)
            + seq!['\n'],
        !joined(ls.push(a.push('\\')).push(b)).1,
        joined(ls.push(b)).0 == joined(ls).0 + b + seq!['\n'],
        !joined(ls.push(b)).1,
{
    reveal_strlit("\\");
    let p = "\\"@;
    assert(p =~= seq!['\\']);
    let first = a.push('\\');
    let one = ls.push(first);
    let two = one.push(b);
    assert(one.drop_last() =~= ls);
    assert(two.drop_last() =~= one);
    assert(p =~= first.subrange(first.len() - 1, first.len() as int));
    assert(first.take(first.len() - 1) =~= a);
    let t = trim_start(b);
    lemma_trim_start_end(b);
    assert(strip_suffix(t, p) is None) by {
        if p.is_suffix_of(t) {
            assert(t.subrange(t.len() - 1, t.len() as int)[0] == '\\');
        }
    }
    assert(strip_suffix(b, p) is None) by {
        if p.is_suffix_of(b) {
            assert(b.subrange(b.len() - 1, b.len() as int)[0] == '\\');
        }
    }
    let acc = joined(ls).0;
    assert(joined(one) == (acc + a, true));
    assert(((acc + a).push(' ') + t).push('\n') =~= acc + a + seq![' '] + t + seq!['\n']);
    let alone = ls.push(b);
    assert(alone.drop_last() =~= ls);
    assert((acc + b).push('\n') =~= acc + b + seq!['\n']);
}

proof fn lemma_trim_start_end(b: Seq<char>)
    ensures
        trim_start(b).len() > 0 ==> trim_start(b).last() == b.last(),
    decreases b.len(),
{
    if b.len() > 0 && is_space(b[0]) {
        lemma_trim_start_end(b.drop_first());
    }
}

// ------------------------------------------------ the sections of a rule

proof fn lemma_bar(a: Seq<char>, b: Seq<char>)
    requires
        find(a, "|>"@) is None,
    ensures
        find(a + "|>"@ + b, "|>"@) == Some(a.len() as int),
    decreases a.len(),
{
    reveal_strlit("|>");
    let pat = "|>"@;
    let s = a + pat + b;
    if a.len() == 0 {
        assert(s.subrange(0, pat.len() as int) =~= pat);
    } else {
        let rest = a.drop_first();
        lemma_bar(rest, b);
        assert(s.drop_first() =~= rest + pat + b);
        if a.len() == 1 {
            assert(s[1] == '|');
            lemma_no_prefix(s, pat, 1);
        } else if a[0] == '|' && a[1] == '>' {
            assert(a.subrange(0, pat.len() as int) =~= pat);
        } else if a[0] == '|' {
            assert(s[1] == a[1]);
            lemma_no_prefix(s, pat, 1);
        } else {
            assert(s[0] == a[0]);
            lemma_no_prefix(s, pat, 0);
        }
    }
}

/// A rule has its inputs before the first `|>`, its command before the second one, and its
/// outputs behind that. With fewer of them it is an error.
pub proof fn a_rule_has_three_sections(
    i: Seq<char>,
    c: Seq<char>,
    o: Seq<char>,
    n: usize,
)
    requires
        find(i, "|>"@) is None,
        find(c, "|>"@) is None,
        trim(i + "|>"@ + c + "|>"@ + o) == i + "|>"@ + c + "|>"@ + o,
        strip_prefix(i + "|>"@ + c + "|>"@ + o, "foreach "@) is None,
        strip_prefix(i + "|>"@ + c + "|>"@ + o, "foreach\t"@) is None,
    ensures
        rule_of(i + "|>"@ + c + "|>"@ + o, n) matches Ok(r) && {
            &&& !r.foreach
            &&& r.line_number == n
            &&& (r.inputs, r.order_only_inputs) == input_section(trim(i))
            &&& r.command == command_section(trim(c))
            &&& (r.outputs, r.extra_outputs) == output_section(trim(o))
            &&& r.had_inputs <==> r.inputs.len() > 0
            &&& r.bin is None
            &&& r.vars_snapshot is None
        },
{
    lemma_three_parts(i, c, o);
}

proof fn lemma_three_parts(i: Seq<char>, c: Seq<char>, o: Seq<char>)
    requires
        find(i, "|>"@) is None,
        find(c, "|>"@) is None,
    ensures
        ({
            let parts = split(i + "|>"@ + c + "|>"@ + o, "|>"@);
            &&& parts.len() >= 3
            &&& parts[0] == i
            &&& parts[1] == c
            &&& output_part(parts) == o
        }),
{
    reveal_strlit("|>");
    let pat = "|>"@;
    let s = i + pat + c + pat + o;
    let rest = c + pat + o;
    assert(s =~= i + pat + rest);
    lemma_bar(i, rest);
    lemma_bar(c, o);
    assert(s.take(i.len() as int) =~= i);
    assert(s.skip(i.len() as int + pat.len()) =~= rest);
    assert(rest.take(c.len() as int) =~= c);
    assert(rest.skip(c.len() as int + pat.len()) =~= o);
    let tail = split(o, pat);
    let parts = split(s, pat);
    assert(split(rest, pat) =~= seq![c] + tail);
    assert(parts =~= seq![i] + (seq![c] + tail));
    assert(parts.skip(2) =~= tail);
    assert(tail.len() > 0);
    pieces_make_up_the_text(o, pat);
}

/// A rule that begins with `foreach` is the rule behind that word, for each of its
/// inputs.
pub proof fn foreach_begins_a_rule(text: Seq<char>, n: usize)
    requires
        trim(text) == text,
        text.len() > 0,
        strip_prefix(text, "foreach "@) is None,
        strip_prefix(text, "foreach\t"@) is None,
    ensures
        rule_of(text, n) is Ok <==> rule_of("foreach "@ + text, n) is Ok,
        rule_of(text, n) matches Ok(r) ==> !r.foreach && rule_of("foreach "@ + text, n) == Ok::<
            RuleText,
            Seq<char>,
        >(RuleText { foreach: true, ..r }),
        rule_of("foreach\t"@ + text, n) == rule_of("foreach "@ + text, n),
{
    reveal_strlit("foreach ");
    reveal_strlit("foreach\t");
    let f = "foreach "@;
    lemma_prefix(f, text);
    let s = f + text;
    lemma_ends(text);
    let none = Seq::<char>::empty();
    assert(s[0] == 'f' && s.last() == text.last());
    what_stands_between_is_left(none, s, none);
    assert(none + s + none =~= s);
    let g = "foreach\t"@;
    lemma_prefix(g, text);
    let t = g + text;
    assert(t[0] == 'f' && t.last() == text.last());
    what_stands_between_is_left(none, t, none);
    assert(none + t + none =~= t);
    assert(strip_prefix(t, f) is None) by {
        if f.is_prefix_of(t) {
            assert(t.subrange(0, f.len() as int)[7] == f[7]);
        }
    }
}

proof fn lemma_ends(text: Seq<char>)
    requires
        trim(text) == text,
        text.len() > 0,
    ensures
        !is_space(text[0]) && !is_space(text.last()),
{
    trimming_takes_white_space_away(text);
}

proof fn lemma_words_trim_start(s: Seq<char>)
    ensures
        words(trim_start(s)) == words(s),
    decreases s.len(),
{
    if s.len() > 0 && is_space(s[0]) {
        let rest = s.drop_first();
        lemma_words_trim_start(rest);
        let none = Seq::<char>::empty();
        white_space_parts_words(none, s[0], rest, seq!['x']);
        assert(none + seq![s[0]] + rest =~= s);
        assert(words(none) + words(rest) =~= words(rest));
    }
}

proof fn lemma_words_trim_end(s: Seq<char>)
    ensures
        words(trim_end(s)) == words(s),
    decreases s.len(),
{
    if s.len() > 0 && is_space(s.last()) {
        let rest = s.drop_last();
        lemma_words_trim_end(rest);
        let none = Seq::<char>::empty();
        white_space_parts_words(rest, s.last(), none, seq!['x']);
        assert(rest + seq![s.last()] + none =~= s);
        assert(words(rest) + words(none) =~= words(rest));
    }
}

/// White space around a text makes no difference to its words.
pub proof fn words_of_a_trimmed_text(s: Seq<char>)
    ensures
        words(trim(s)) == words(s),
{
    lemma_words_trim_start(s);
    lemma_words_trim_end(trim_start(s));
}

proof fn lemma_find_bar(a: Seq<char>, b: Seq<char>)
    requires
        !a.contains('|'),
    ensures
        find(a + " | "@ + b, " | "@) == Some(a.len() as int),
        find(a, " | "@) is None,
    decreases a.len(),
{
    reveal_strlit(" | ");
    let pat = " | "@;
    let s = a + pat + b;
    if a.len() == 0 {
        assert(s.subrange(0, pat.len() as int) =~= pat);
        lemma_no_prefix(a, pat, 0);
    } else {
        let rest = a.drop_first();
        assert(!rest.contains('|')) by {
            if rest.contains('|') {
                let i = choose|i: int| 0 <= i < rest.len() && rest[i] == '|';
                assert(a[i + 1] == '|');
            }
        }
        lemma_find_bar(rest, b);
        assert(s.drop_first() =~= rest + pat + b);
        if a.len() > 1 {
            assert(a.contains(a[1]));
            assert(s[1] == a[1]);
        } else {
            assert(s[1] == ' ');
        }
        lemma_no_prefix(s, pat, 1);
        lemma_no_prefix(a, pat, 1);
    }
}

/// The words before ` | ` are inputs, those behind it order-only inputs; without it all
/// are inputs. The outputs of a rule and its extra outputs are parted in the same way.
pub proof fn a_bar_parts_a_section(a: Seq<char>, b: Seq<char>)
    requires
        !a.contains('|'),
    ensures
        input_section(a + " | "@ + b) == (words(a), words(b)),
        input_section(a) == (words(a), Seq::<Seq<char>>::empty()),
        input_section(seq!['|', ' '] + b).0 == Seq::<Seq<char>>::empty() || find(
            seq!['|', ' '] + b,
            " | "@,
        ) is Some,
        find(seq!['|', ' '] + b, " | "@) is None ==> input_section(seq!['|', ' '] + b) == (
            Seq::<Seq<char>>::empty(),
            words(b),
        ),
        output_section(a + " | "@ + b) == (words(a), words(b)),
        output_section(a) == (words(a), Seq::<Seq<char>>::empty()),
{
    reveal_strlit(" | ");
    reveal_strlit("| ");
    reveal_strlit("|");
    reveal_strlit(" |");
    let s = a + " | "@ + b;
    lemma_find_bar(a, b);
    assert(s.take(a.len() as int) =~= a);
    assert(s.skip(a.len() as int + 3) =~= b);
    if a.len() > 0 {
        assert(a.contains(a[0]));
        assert(a.contains(a.last()));
    }
    assert(strip_prefix(a, "| "@) is None) by {
        lemma_no_prefix(a, "| "@, 0);
    }
    assert(a != "|"@) by {
        if a == "|"@ {
            assert(a[0] == '|');
        }
    }
    assert(strip_suffix(a, " |"@) is None) by {
        if " |"@.is_suffix_of(a) {
            assert(a.subrange(a.len() - 2, a.len() as int)[1] == '|');
        }
    }
    assert(seq!['|', ' '] =~= "| "@);
    lemma_prefix("| "@, b);
}

/// A bar at the end of the inputs, with nothing behind it, parts nothing; one that stands alone
/// says that there are no inputs at all.
pub proof fn a_bar_may_stand_last(a: Seq<char>)
    requires
        !a.contains('|'),
        a.len() > 0,
    ensures
        input_section(a + seq![' ', '|']) == (words(a), Seq::<Seq<char>>::empty()),
        input_section(seq!['|']) == (Seq::<Seq<char>>::empty(), Seq::<Seq<char>>::empty()),
{
    reveal_strlit(" | ");
    reveal_strlit("| ");
    reveal_strlit("|");
    reveal_strlit(" |");
    let s = a + seq![' ', '|'];
    lemma_no_bar(a);
    assert(a.contains(a[0]));
    assert(s[0] == a[0]);
    lemma_no_prefix(s, "| "@, 0);
    assert(s.len() > "|"@.len());
    assert(seq![' ', '|'] =~= " |"@);
    assert(s.subrange(a.len() as int, s.len() as int) =~= " |"@);
    assert(s.take(a.len() as int) =~= a);
    let one = seq!['|'];
    assert(one =~= "|"@);
    assert(find(one.drop_first(), " | "@) is None) by {
        assert(one.drop_first().len() == 0);
    }
    assert(find(one, " | "@) is None);
    assert(!"| "@.is_prefix_of(one));
}

proof fn lemma_no_bar(a: Seq<char>)
    requires
        !a.contains('|'),
    ensures
        find(a + seq![' ', '|'], " | "@) is None,
    decreases a.len(),
{
    reveal_strlit(" | ");
    let pat = " | "@;
    let s = a + seq![' ', '|'];
    if a.len() == 0 {
        assert(!pat.is_prefix_of(s));
        let t = s.drop_first();
        let u = t.drop_first();
        assert(find(u, pat) is None) by {
            assert(u.len() == 0);
        }
        assert(find(t, pat) is None);
    } else {
        let rest = a.drop_first();
        assert(!rest.contains('|')) by {
            if rest.contains('|') {
                let i = choose|i: int| 0 <= i < rest.len() && rest[i] == '|';
                assert(a[i + 1] == '|');
            }
        }
        lemma_no_bar(rest);
        assert(s.drop_first() =~= rest + seq![' ', '|']);
        assert(!pat.is_prefix_of(s)) by {
            if pat.is_prefix_of(s) {
                let head = s.subrange(0, 3);
                assert(head[1] == '|' && head[2] == ' ');
                assert(s[1] == '|' && s[2] == ' ');
                if a.len() > 1 {
                    assert(a[1] == '|');
                    assert(a.contains(a[1]));
                } else {
                    assert(s[1] == ' ');
                }
            }
        }
    }
}

/// What stands between two `^` at the start of a command is shown in its place, and the
/// command follows; before it, and parted by a space, one or two small letters are
/// flags. A command that does not begin so stands for itself.
pub proof fn what_is_shown_stands_between_carets(
    flags: Seq<char>,
    shown: Seq<char>,
    c: Seq<char>,
)
    requires
        1 <= flags.len() <= 2,
        forall|i: int| 0 <= i < flags.len() ==> 'a' <= #[trigger] flags[i] <= 'z',
        is_word(shown),
        !shown.contains('^'),
    ensures
        command_section(seq!['^'] + flags + seq![' '] + shown + seq!['^'] + c) == (CommandText {
            flags: Some(flags),
            display: Some(shown),
            command: trim(c),
        }),
        command_section(seq!['^'] + shown + seq!['^'] + c) == (CommandText {
            flags: None,
            display: Some(shown),
            command: trim(c),
        }),
        command_section(seq!['^'] + flags + seq![' '] + seq!['^'] + c) == (CommandText {
            flags: Some(flags),
            display: None,
            command: trim(c),
        }),
        command_section(seq!['^', '^'] + c) == (CommandText {
            flags: None,
            display: None,
            command: trim(c),
        }),
        c.len() == 0 || c[0] != '^' ==> command_section(c) == (CommandText {
            flags: None,
            display: None,
            command: c,
        }),
{
    let none = Seq::<char>::empty();
    assert(is_space(' '));
    // flags and text
    let d = flags + seq![' '] + shown;
    let s = seq!['^'] + flags + seq![' '] + shown + seq!['^'] + c;
    assert(!flags.contains('^') && !flags.contains(' ')) by {
        if flags.contains('^') {
            let i = choose|i: int| 0 <= i < flags.len() && flags[i] == '^';
            assert('a' <= flags[i]);
        }
        if flags.contains(' ') {
            let i = choose|i: int| 0 <= i < flags.len() && flags[i] == ' ';
            assert('a' <= flags[i]);
        }
    }
    assert(!d.contains('^')) by {
        if d.contains('^') {
            let i = choose|i: int| 0 <= i < d.len() && d[i] == '^';
            if i < flags.len() {
                assert(flags.contains(flags[i]));
            } else if i > flags.len() {
                assert(shown.contains(shown[i - flags.len() - 1]));
            }
        }
    }
    lemma_first_char(d, '^', c);
    assert(s.skip(1) =~= d + seq!['^'] + c);
    assert((d + seq!['^'] + c).take(d.len() as int) =~= d);
    assert((d + seq!['^'] + c).skip(d.len() as int + 1) =~= c);
    lemma_first_char(flags, ' ', shown);
    assert(d.take(flags.len() as int) =~= flags);
    assert(d.skip(flags.len() as int + 1) =~= shown);
    what_stands_between_is_left(none, shown, none);
    assert(none + shown + none =~= shown);
    // text alone
    let s = seq!['^'] + shown + seq!['^'] + c;
    lemma_first_char(shown, '^', c);
    assert(s.skip(1) =~= shown + seq!['^'] + c);
    assert((shown + seq!['^'] + c).take(shown.len() as int) =~= shown);
    assert((shown + seq!['^'] + c).skip(shown.len() as int + 1) =~= c);
    find_char_is_first(shown, ' ');
    match find_char(shown, ' ') {
        Some(k) => {
            assert(is_space(shown[k]));
        },
        None => {},
    }
    // flags alone
    let e = flags + seq![' '];
    let s = seq!['^'] + flags + seq![' '] + seq!['^'] + c;
    assert(!e.contains('^')) by {
        if e.contains('^') {
            let i = choose|i: int| 0 <= i < e.len() && e[i] == '^';
            if i < flags.len() {
                assert(flags.contains(flags[i]));
            }
        }
    }
    lemma_first_char(e, '^', c);
    assert(s.skip(1) =~= e + seq!['^'] + c);
    assert((e + seq!['^'] + c).take(e.len() as int) =~= e);
    assert((e + seq!['^'] + c).skip(e.len() as int + 1) =~= c);
    lemma_first_char(flags, ' ', none);
    assert(flags + seq![' '] + none =~= e);
    assert(e.take(flags.len() as int) =~= flags);
    assert(e.skip(flags.len() as int + 1) =~= none);
    assert(trim(none) == none);
    // nothing
    let s = seq!['^', '^'] + c;
    lemma_first_char(none, '^', c);
    assert(s.skip(1) =~= none + seq!['^'] + c);
    assert((none + seq!['^'] + c).take(0) =~= none);
    assert((none + seq!['^'] + c).skip(1) =~= c);
    assert(find_char(none, ' ') is None);
}

proof fn lemma_first_char(a: Seq<char>, x: char, b: Seq<char>)
    requires
        !a.contains(x),
    ensures
        find_char(a + seq![x] + b, x) == Some(a.len() as int),
{
    let s = a + seq![x] + b;
    find_char_is_first(s, x);
    assert(s[a.len() as int] == x);
    assert(s.contains(s[a.len() as int]));
    match find_char(s, x) {
        Some(k) => {
            if k < a.len() {
                assert(a.contains(a[k]));
                assert(s[k] == a[k]);
            } else if k > a.len() {
                assert(s[a.len() as int] != x);
            }
        },
        None => {},
    }
}

// ------------------------------------------------ macros

/// A macro makes a rule of its command and extra outputs. The inputs and outputs of the
/// rule come before those of the macro, which serve where it has none; a rule is for
/// each of its inputs where it or the macro says so.
pub proof fn a_macro_makes_a_rule(
    known: Map<Seq<char>, BangText>,
    name: Seq<char>,
    inputs: Seq<Seq<char>>,
    outputs: Seq<Seq<char>>,
    foreach: bool,
    n: usize,
)
    requires
        !name.contains('!'),
    ensures
        !known.dom().contains(name) ==> macro_rule(
            known,
            seq!['!'] + name,
            inputs,
            outputs,
            foreach,
            n,
        ) is Err,
        known.dom().contains(name) ==> (macro_rule(
            known,
            seq!['!'] + name,
            inputs,
            outputs,
            foreach,
            n,
        ) matches Ok(r) && {
            let m = known[name];
            &&& r.command.command == m.command
            &&& r.command.display is None && r.command.flags is None
            &&& r.extra_outputs == m.extra_outputs
            &&& r.order_only_inputs.len() == 0
            &&& r.line_number == n
            &&& r.foreach <==> foreach || m.foreach
            &&& r.had_inputs <==> r.inputs.len() > 0
            &&& inputs.len() > 0 ==> r.inputs == inputs
            &&& inputs.len() == 0 && m.input is None ==> r.inputs.len() == 0
            &&& inputs.len() == 0 ==> (m.input matches Some(i) ==> r.inputs == words(i))
            &&& outputs.len() > 0 ==> r.outputs == outputs
            &&& outputs.len() == 0 ==> r.outputs == m.outputs
        }),
{
    lemma_bare(name);
}

proof fn lemma_bare(name: Seq<char>)
    requires
        !name.contains('!'),
    ensures
        bare_name(seq!['!'] + name) == name,
        bare_name(name) == name,
{
    let s = seq!['!'] + name;
    assert(s.drop_first() =~= name);
    if name.len() > 0 {
        assert(name.contains(name[0]));
    }
    assert(bare_name(s) == bare_name(s.drop_first()));
}

/// A macro is read like a rule: input, command and outputs, parted by `|>`.
pub proof fn a_macro_has_three_sections(
    known: Map<Seq<char>, BangText>,
    name: Seq<char>,
    i: Seq<char>,
    c: Seq<char>,
    o: Seq<char>,
)
    requires
        find(i, "|>"@) is None,
        find(c, "|>"@) is None,
        trim(i + "|>"@ + c + "|>"@ + o) == i + "|>"@ + c + "|>"@ + o,
        i.len() == 0 || i[0] != '!',
        strip_prefix(trim(i), "foreach "@) is None,
        trim(i) != "foreach"@,
    ensures
        macro_of(known, name, i + "|>"@ + c + "|>"@ + o) matches Ok(m) && {
            &&& m.name == name
            &&& !m.foreach
            &&& m.input == (if trim(i).len() == 0 {
                None
            } else {
                Some(trim(i))
            })
            &&& m.command == trim(c)
            &&& (m.outputs, m.extra_outputs) == output_section(o)
        },
{
    reveal_strlit("|>");
    lemma_three_parts(i, c, o);
    let s = i + "|>"@ + c + "|>"@ + o;
    if i.len() > 0 {
        assert(s[0] == i[0]);
    } else {
        assert(s[0] == '|');
    }
}

/// A macro can be defined as another one: it has its own name, and all else from the other,
/// which has to be known.
pub proof fn a_macro_can_stand_for_another(
    known: Map<Seq<char>, BangText>,
    name: Seq<char>,
    other: Seq<char>,
)
    requires
        is_word(other),
        other[0] != '!',
    ensures
        !known.dom().contains(other) ==> macro_of(known, name, seq!['!'] + other) is Err,
        known.dom().contains(other) ==> (macro_of(known, name, seq!['!'] + other) matches Ok(m) && {
            &&& m.name == name
            &&& m.foreach == known[other].foreach
            &&& m.input == known[other].input
            &&& m.command == known[other].command
            &&& m.outputs == known[other].outputs
            &&& m.extra_outputs == known[other].extra_outputs
        }),
{
    let s = seq!['!'] + other;
    let none = Seq::<char>::empty();
    assert(is_word(s)) by {
        assert forall|i: int| 0 <= i < s.len() implies !is_space(#[trigger] s[i]) by {
            if i > 0 {
                assert(s[i] == other[i - 1]);
            }
        }
    }
    what_stands_between_is_left(none, s, none);
    assert(none + s + none =~= s);
    assert(s.drop_first() =~= other);
    assert(trim_start_matches(other, '!') == other);
    assert(bare_name(s) == other);
}

} // verus!
