//! What holds of the expansion of variables.
use vstd::prelude::*;
use vstd::utf8::encode_utf8;

use crate::parser::vardb::{closing_paren, first_paren, past, VarTables};
use crate::parser::varsed::{
    add_entry, binary_entries, is_var_char, number_at, replacement, substituted, var_run,
    vardict_binary, vardict_lines,
};
use crate::text::{find_char, find_char_is_first, is_space, trim, trim_end_matches};
use crate::text_laws::what_stands_between_is_left;

verus! {

// ------------------------------------------------ references in a Tupfile

/// Text before a reference stays, and what follows it is expanded by itself.
pub proof fn text_before_a_reference_stays(t: VarTables, a: Seq<char>, s: Seq<char>)
    requires
        !a.contains('$') && !a.contains('@') && !a.contains('\\'),
    ensures
        t.expand(a + s) == a + t.expand(s),
        t.expand(Seq::empty()) == Seq::<char>::empty(),
    decreases a.len(),
{
    let all = a + s;
    if a.len() == 0 {
        assert(all =~= s);
        assert(a + t.expand(s) =~= t.expand(s));
    } else {
        let rest = a.skip(1);
        assert(a.contains(a[0]));
        assert forall|c: char| rest.contains(c) implies a.contains(c) by {
            let i = choose|i: int| 0 <= i < rest.len() && rest[i] == c;
            assert(a[i + 1] == c);
        }
        text_before_a_reference_stays(t, rest, s);
        assert(all.skip(1) =~= rest + s);
        assert(seq![a[0]] + (rest + t.expand(s)) =~= a + t.expand(s));
    }
}

proof fn lemma_closing(name: Seq<char>, rest: Seq<char>)
    requires
        !name.contains('('),
        !name.contains(')'),
    ensures
        closing_paren(name + seq![')'] + rest, 1) == name.len(),
    decreases name.len(),
{
    let s = name + seq![')'] + rest;
    if name.len() > 0 {
        let more = name.drop_first();
        assert forall|c: char| more.contains(c) implies name.contains(c) by {
            let i = choose|i: int| 0 <= i < more.len() && more[i] == c;
            assert(name[i + 1] == c);
        }
        assert(name.contains(name[0]));
        assert(s[0] == name[0]);
        assert(s.drop_first() =~= more + seq![')'] + rest);
        lemma_closing(more, rest);
    } else {
        assert(s[0] == ')');
    }
}

proof fn lemma_first_paren(name: Seq<char>, rest: Seq<char>)
    requires
        !name.contains(')'),
    ensures
        first_paren(name + seq![')'] + rest) == name.len(),
    decreases name.len(),
{
    let s = name + seq![')'] + rest;
    if name.len() > 0 {
        let more = name.drop_first();
        assert forall|c: char| more.contains(c) implies name.contains(c) by {
            let i = choose|i: int| 0 <= i < more.len() && more[i] == c;
            assert(name[i + 1] == c);
        }
        assert(name.contains(name[0]));
        assert(s[0] == name[0]);
        assert(s.drop_first() =~= more + seq![')'] + rest);
        lemma_first_paren(more, rest);
    } else {
        assert(s[0] == ')');
    }
}

/// A reference gives the value of its variable, nothing where it has none, and what
/// follows it is expanded by itself. `$(..)` names a variable of the Tupfile, `@(..)` one
/// of the configuration. Values are not expanded again.
pub proof fn references_give_values(t: VarTables, name: Seq<char>, rest: Seq<char>)
    requires
        !name.contains('(') && !name.contains(')'),
    ensures
        t.vars.dom().contains(name) ==> t.expand(seq!['$', '('] + name + seq![')'] + rest)
            == t.vars[name] + t.expand(rest),
        !t.vars.dom().contains(name) ==> t.expand(seq!['$', '('] + name + seq![')'] + rest)
            == t.expand(rest),
        t.config.dom().contains(name) ==> t.expand(seq!['@', '('] + name + seq![')'] + rest)
            == t.config[name] + t.expand(rest),
        !t.config.dom().contains(name) ==> t.expand(seq!['@', '('] + name + seq![')'] + rest)
            == t.expand(rest),
{
    let body = name + seq![')'] + rest;
    lemma_closing(name, rest);
    lemma_first_paren(name, rest);
    assert(body.take(name.len() as int) =~= name);
    assert(past(body, name.len() as int) =~= rest);
    let s = seq!['$', '('] + name + seq![')'] + rest;
    assert(s.skip(2) =~= body);
    let c = seq!['@', '('] + name + seq![')'] + rest;
    assert(c.skip(2) =~= body);
    assert(Seq::<char>::empty() + t.expand(rest) =~= t.expand(rest));
}

/// A backslash before `$(` makes it plain text, and goes away itself.
pub proof fn a_backslash_keeps_a_reference(t: VarTables, rest: Seq<char>)
    requires
        rest.len() == 0 || (rest[0] != '$' && rest[0] != '@'),
    ensures
        t.expand(seq!['\\', '$', '('] + rest) == seq!['$', '('] + t.expand(rest),
{
    let s = seq!['\\', '$', '('] + rest;
    let p = seq!['('] + rest;
    assert(s.skip(2) =~= p);
    assert(p.skip(1) =~= rest);
    assert(t.expand(p) == seq!['('] + t.expand(rest));
    assert(seq!['$'] + (seq!['('] + t.expand(rest)) =~= seq!['$', '('] + t.expand(rest));
}

// ------------------------------------------------ references in other files

proof fn lemma_var_run(name: Seq<char>, rest: Seq<char>)
    requires
        forall|i: int| 0 <= i < name.len() ==> is_var_char(#[trigger] name[i]),
        rest.len() == 0 || !is_var_char(rest[0]),
    ensures
        var_run(name + rest) == name.len(),
    decreases name.len(),
{
    let s = name + rest;
    if name.len() > 0 {
        let more = name.skip(1);
        assert forall|i: int| 0 <= i < more.len() implies is_var_char(#[trigger] more[i]) by {
            assert(more[i] == name[i + 1]);
        }
        assert(is_var_char(name[0]));
        lemma_var_run(more, rest);
        assert(s.skip(1) =~= more + rest);
    } else {
        assert(s =~= rest);
    }
}

/// `@name@` is replaced by the value of the variable, by nothing where it has none; what
/// is before it stays, and what follows it is replaced by itself. Where switches are
/// wanted as numbers, `y` becomes `1` and `n` becomes `0`. An `@` without another one
/// behind its name stays.
pub proof fn variables_are_put_in(
    a: Seq<char>,
    name: Seq<char>,
    b: Seq<char>,
    vars: Map<Seq<char>, Seq<char>>,
    binmode: bool,
)
    requires
        !a.contains('@'),
        forall|i: int| 0 <= i < name.len() ==> is_var_char(#[trigger] name[i]),
    ensures
        ({
            let value = if vars.dom().contains(name) {
                vars[name]
            } else {
                Seq::empty()
            };
            let put = if binmode && value == seq!['y'] {
                seq!['1']
            } else if binmode && value == seq!['n'] {
                seq!['0']
            } else {
                value
            };
            substituted(a + seq!['@'] + name + seq!['@'] + b, vars, binmode) == a + put
                + substituted(b, vars, binmode)
        }),
        b.len() == 0 || (b[0] != '@' && !is_var_char(b[0])) ==> substituted(
            a + seq!['@'] + name + b,
            vars,
            binmode,
        ) == a + seq!['@'] + name + substituted(b, vars, binmode),
    decreases a.len(),
{
    reveal_strlit("y");
    reveal_strlit("n");
    reveal_strlit("1");
    reveal_strlit("0");
    assert("y"@ =~= seq!['y'] && "n"@ =~= seq!['n'] && "1"@ =~= seq!['1'] && "0"@ =~= seq!['0']);
    let s = a + seq!['@'] + name + seq!['@'] + b;
    let open = a + seq!['@'] + name + b;
    if a.len() == 0 {
        let tail = seq!['@'] + b;
        assert(s.skip(1) =~= name + tail);
        lemma_var_run(name, tail);
        let n = name.len() as int;
        assert(s[1 + n] == '@');
        assert(s.subrange(1, 1 + n) =~= name);
        assert(s.skip(n + 2) =~= b);
        let r = replacement(vars, name, binmode);
        assert(a + r + substituted(b, vars, binmode) =~= r + substituted(b, vars, binmode));
        if b.len() == 0 || (b[0] != '@' && !is_var_char(b[0])) {
            assert(open.skip(1) =~= name + b);
            lemma_var_run(name, b);
            assert(open.take(1 + n) =~= seq!['@'] + name);
            assert(open.skip(1 + n) =~= b);
            assert(a + seq!['@'] + name + substituted(b, vars, binmode) =~= seq!['@'] + name
                + substituted(b, vars, binmode));
        }
    } else {
        let rest = a.skip(1);
        assert(a.contains(a[0]));
        assert(!rest.contains('@')) by {
            if rest.contains('@') {
                let i = choose|i: int| 0 <= i < rest.len() && rest[i] == '@';
                assert(a[i + 1] == '@');
            }
        }
        variables_are_put_in(rest, name, b, vars, binmode);
        assert(s.skip(1) =~= rest + seq!['@'] + name + seq!['@'] + b);
        assert(open.skip(1) =~= rest + seq!['@'] + name + b);
        let r = replacement(vars, name, binmode);
        let tail = substituted(b, vars, binmode);
        assert(seq![a[0]] + (rest + r + tail) =~= a + r + tail);
        assert(seq![a[0]] + (rest + seq!['@'] + name + tail) =~= a + seq!['@'] + name + tail);
    }
}

/// A line `name=value` gives a name its value, up to the first `=`; the last such line of
/// a name counts, and lines without `=` give nothing.
pub proof fn entries_are_read(ls: Seq<Seq<char>>, name: Seq<char>, value: Seq<char>)
    requires
        !name.contains('='),
        trim(name + seq!['='] + value) == name + seq!['='] + value,
    ensures
        ({
            let before = vardict_lines(ls);
            let after = vardict_lines(ls.push(name + seq!['='] + value));
            &&& after.dom().contains(name) && after[name] == value
            &&& forall|other: Seq<char>| #![trigger after[other]]
                other != name ==> {
                    &&& after.dom().contains(other) == before.dom().contains(other)
                    &&& after[other] == before[other]
                }
            &&& trim(name) == name ==> vardict_lines(ls.push(name)) == before
        }),
        vardict_lines(Seq::empty()) == Map::<Seq<char>, Seq<char>>::empty(),
{
    let entry = name + seq!['='] + value;
    let all = ls.push(entry);
    assert(all.drop_last() =~= ls);
    assert(ls.push(name).drop_last() =~= ls);
    find_char_is_first(entry, '=');
    find_char_is_first(name, '=');
    assert(entry[name.len() as int] == '=');
    assert(entry.contains(entry[name.len() as int]));
    match find_char(entry, '=') {
        Some(k) => {
            if k < name.len() {
                assert(name.contains(name[k]));
                assert(entry[k] == name[k]);
            } else if k > name.len() {
                assert(entry[name.len() as int] != '=');
            }
        },
        None => {},
    }
    match find_char(name, '=') {
        Some(k) => {
            assert(name.contains(name[k]));
        },
        None => {},
    }
    assert(entry.take(name.len() as int) =~= name);
    assert(entry.skip(name.len() as int + 1) =~= value);
}

/// The names of variables are made of letters, digits and underscores.
pub proof fn names_are_made_of_letters_and_digits(c: char)
    ensures
        is_var_char(c) <==> 'a' <= c <= 'z' || 'A' <= c <= 'Z' || '0' <= c <= '9' || c == '_',
{
}

/// White space around an entry is no part of it.
pub proof fn entries_stand_between_white_space(
    ls: Seq<Seq<char>>,
    a: Seq<char>,
    entry: Seq<char>,
    b: Seq<char>,
)
    requires
        forall|i: int| 0 <= i < a.len() ==> is_space(#[trigger] a[i]),
        forall|i: int| 0 <= i < b.len() ==> is_space(#[trigger] b[i]),
        entry.len() > 0,
        !is_space(entry[0]) && !is_space(entry.last()),
    ensures
        vardict_lines(ls.push(a + entry + b)) == vardict_lines(ls.push(entry)),
{
    let none = Seq::<char>::empty();
    what_stands_between_is_left(a, entry, b);
    what_stands_between_is_left(none, entry, none);
    assert(none + entry + none =~= entry);
    assert(ls.push(a + entry + b).drop_last() =~= ls);
    assert(ls.push(entry).drop_last() =~= ls);
}

/// The four bytes of a number, the least significant one first.
pub open spec fn bytes_of(n: int) -> Seq<u8> {
    seq![
        (n % 256) as u8,
        ((n / 256) % 256) as u8,
        ((n / 65536) % 256) as u8,
        ((n / 16777216) % 256) as u8,
    ]
}

/// A number in four bytes, wherever they stand, is read back.
pub proof fn numbers_are_read(a: Seq<u8>, n: int, b: Seq<u8>)
    requires
        0 <= n < 0x1_0000_0000,
    ensures
        number_at(a + bytes_of(n) + b, a.len() as int) == n,
{
    let data = a + bytes_of(n) + b;
    let k = a.len() as int;
    assert(data[k] == bytes_of(n)[0]);
    assert(data[k + 1] == bytes_of(n)[1]);
    assert(data[k + 2] == bytes_of(n)[2]);
    assert(data[k + 3] == bytes_of(n)[3]);
}

proof fn lemma_entry(m: Map<Seq<char>, Seq<char>>, name: Seq<char>, value: Seq<char>)
    requires
        !name.contains('='),
        value.len() > 0,
        value.last() != '\0',
    ensures
        ({
            let entry = name + seq!['='] + value;
            &&& trim_end_matches(entry, '\0') == entry
            &&& add_entry(m, entry) == m.insert(name, value)
        }),
{
    let entry = name + seq!['='] + value;
    let k = name.len() as int;
    find_char_is_first(entry, '=');
    assert(entry[k] == '=');
    assert(entry.contains(entry[k]));
    match find_char(entry, '=') {
        Some(j) => {
            if j < k {
                assert(name.contains(name[j]));
                assert(entry[j] == name[j]);
            } else if j > k {
                assert(entry[k] != '=');
            }
        },
        None => {},
    }
    assert(entry.take(k) =~= name);
    assert(entry.skip(k + 1) =~= value);
    assert(entry.last() == value.last());
}

/// A file of variables in binary form holds the number of its entries, where each of them
/// begins behind the numbers, and the entries: each is read up to where the next one begins,
/// the last one up to the end.
pub proof fn binary_entries_are_read(
    name: Seq<char>,
    value: Seq<char>,
    other: Seq<char>,
    more: Seq<char>,
)
    requires
        !name.contains('=') && !other.contains('='),
        value.len() > 0 && value.last() != '\0',
        more.len() > 0 && more.last() != '\0',
        encode_utf8(name + seq!['='] + value).len() < 0x1_0000_0000,
    ensures
        ({
            let a = encode_utf8(name + seq!['='] + value);
            let b = encode_utf8(other + seq!['='] + more);
            let none = Map::<Seq<char>, Seq<char>>::empty();
            &&& vardict_binary(bytes_of(1) + bytes_of(0) + a) == none.insert(name, value)
            &&& vardict_binary(bytes_of(2) + bytes_of(0) + bytes_of(a.len() as int) + a + b)
                == none.insert(name, value).insert(other, more)
        }),
{
    let first = name + seq!['='] + value;
    let second = other + seq!['='] + more;
    let a = encode_utf8(first);
    let b = encode_utf8(second);
    let none = Map::<Seq<char>, Seq<char>>::empty();
    let nothing = Seq::<u8>::empty();
    vstd::utf8::encode_utf8_valid_utf8(first);
    vstd::utf8::encode_utf8_valid_utf8(second);
    vstd::utf8::encode_utf8_decode_utf8(first);
    vstd::utf8::encode_utf8_decode_utf8(second);
    lemma_entry(none, name, value);
    lemma_entry(none.insert(name, value), other, more);
    let one = bytes_of(1) + bytes_of(0) + a;
    assert(one =~= nothing + bytes_of(1) + (bytes_of(0) + a));
    numbers_are_read(nothing, 1, bytes_of(0) + a);
    numbers_are_read(bytes_of(1), 0, a);
    assert(one.subrange(8, one.len() as int) =~= a);
    assert(binary_entries(one, 0) == none);
    assert(binary_entries(one, 1) == none.insert(name, value));
    let n = a.len() as int;
    let two = bytes_of(2) + bytes_of(0) + bytes_of(n) + a + b;
    assert(two =~= nothing + bytes_of(2) + (bytes_of(0) + bytes_of(n) + a + b));
    assert(two =~= bytes_of(2) + bytes_of(0) + (bytes_of(n) + a + b));
    assert(two =~= (bytes_of(2) + bytes_of(0)) + bytes_of(n) + (a + b));
    numbers_are_read(nothing, 2, bytes_of(0) + bytes_of(n) + a + b);
    numbers_are_read(bytes_of(2), 0, bytes_of(n) + a + b);
    numbers_are_read(bytes_of(2) + bytes_of(0), n, a + b);
    assert(two.subrange(12, 12 + n) =~= a);
    assert(two.subrange(12 + n, two.len() as int) =~= b);
    assert(binary_entries(two, 0) == none);
    assert(binary_entries(two, 1) == none.insert(name, value));
    assert(binary_entries(two, 2) == none.insert(name, value).insert(other, more));
}

} // verus!
