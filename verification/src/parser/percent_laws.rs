//! What holds of `%`-flags.
use vstd::prelude::*;

use crate::parser::percent::{
    bases_of, command_text, flag_value, input_of, output_text, paths_of, pattern_value, stems_of,
    substitute, substitute_without_flags, without_extension, InputText,
};
use crate::paths::{ext_of, file_name, parent, stem_of, trim_tail};
use crate::text::{join, rfind_char, words};
use crate::text_laws::{is_word, joined_words_are_read_back, rfind_char_is_last};

verus! {

// ------------------------------------------------ flags in a text

proof fn lemma_substitute_parts(
    a: Seq<char>,
    c: char,
    b: Seq<char>,
    value: spec_fn(char) -> Seq<char>,
)
    requires
        !a.contains('%'),
    ensures
        substitute(a + seq!['%', c] + b, value) == a + value(c) + substitute(b, value),
    decreases a.len(),
{
    let s = a + seq!['%', c] + b;
    if a.len() == 0 {
        assert(s.skip(2) =~= b);
        assert(a + value(c) =~= value(c));
    } else {
        let rest = a.skip(1);
        assert(a.contains(a[0]));
        assert(!rest.contains('%')) by {
            if rest.contains('%') {
                let i = choose|i: int| 0 <= i < rest.len() && rest[i] == '%';
                assert(a[i + 1] == '%');
            }
        }
        lemma_substitute_parts(rest, c, b, value);
        assert(s[0] == a[0]);
        assert(s.skip(1) =~= rest + seq!['%', c] + b);
        assert(seq![a[0]] + (rest + value(c) + substitute(b, value)) =~= a + value(c) + substitute(
            b,
            value,
        ));
    }
}

proof fn lemma_one_flag(c: char, value: spec_fn(char) -> Seq<char>)
    ensures
        substitute(seq!['%', c], value) == value(c),
{
    lemma_substitute_parts(Seq::empty(), c, Seq::empty(), value);
    assert(Seq::<char>::empty() + seq!['%', c] + Seq::<char>::empty() =~= seq!['%', c]);
    assert(Seq::<char>::empty() + value(c) + Seq::<char>::empty() =~= value(c));
}

/// A flag is replaced where it stands: what is before it stays, and what follows it is
/// replaced by itself. A `%` at the end stays.
pub proof fn flags_are_replaced_where_they_stand(
    a: Seq<char>,
    c: char,
    b: Seq<char>,
    inputs: Seq<InputText>,
    outputs: Seq<Seq<char>>,
    order_only: Seq<Seq<char>>,
    dir: Seq<char>,
    input: InputText,
)
    requires
        !a.contains('%'),
    ensures
        command_text(a + seq!['%', c] + b, inputs, outputs, order_only, dir) == a + command_text(
            seq!['%', c],
            inputs,
            outputs,
            order_only,
            dir,
        ) + command_text(b, inputs, outputs, order_only, dir),
        command_text(a, inputs, outputs, order_only, dir) == a,
        command_text(seq!['%'], inputs, outputs, order_only, dir) == seq!['%'],
        output_text(a + seq!['%', c] + b, input) == a + output_text(seq!['%', c], input)
            + output_text(b, input),
        output_text(a, input) == a,
        output_text(seq!['%'], input) == seq!['%'],
{
    let value = |c: char| flag_value(c, inputs, outputs, order_only, dir);
    let pattern = |c: char| pattern_value(c, input);
    lemma_substitute_parts(a, c, b, value);
    lemma_substitute_parts(a, c, b, pattern);
    lemma_one_flag(c, value);
    lemma_one_flag(c, pattern);
    substitute_without_flags(a, value);
    substitute_without_flags(a, pattern);
    let p = seq!['%'];
    assert(p.skip(1) =~= Seq::empty());
    assert(seq![p[0]] + substitute(p.skip(1), value) =~= p);
    assert(seq![p[0]] + substitute(p.skip(1), pattern) =~= p);
}

// ------------------------------------------------ what the flags of a command give

/// `%o` gives all outputs, `%f` the paths of all inputs, `%b` their file names, `%B` those
/// without extension and `%i` the order-only inputs: each in order, with one space
/// between each two. Read as words, they are the same lists again.
pub proof fn lists_are_given_whole(
    inputs: Seq<InputText>,
    outputs: Seq<Seq<char>>,
    order_only: Seq<Seq<char>>,
    dir: Seq<char>,
)
    ensures
        (forall|i: int| 0 <= i < outputs.len() ==> is_word(#[trigger] outputs[i])) ==> words(
            command_text(seq!['%', 'o'], inputs, outputs, order_only, dir),
        ) == outputs,
        (forall|i: int| 0 <= i < order_only.len() ==> is_word(#[trigger] order_only[i])) ==> words(
            command_text(seq!['%', 'i'], inputs, outputs, order_only, dir),
        ) == order_only,
        (forall|i: int| 0 <= i < inputs.len() ==> is_word((#[trigger] inputs[i]).path)) ==> words(
            command_text(seq!['%', 'f'], inputs, outputs, order_only, dir),
        ) == Seq::new(inputs.len(), |i: int| inputs[i].path),
        (forall|i: int| 0 <= i < inputs.len() ==> is_word((#[trigger] inputs[i]).base)) ==> words(
            command_text(seq!['%', 'b'], inputs, outputs, order_only, dir),
        ) == Seq::new(inputs.len(), |i: int| inputs[i].base),
        (forall|i: int| 0 <= i < inputs.len() ==> is_word((#[trigger] inputs[i]).base_no_ext))
            ==> words(command_text(seq!['%', 'B'], inputs, outputs, order_only, dir)) == Seq::new(
            inputs.len(),
            |i: int| inputs[i].base_no_ext,
        ),
{
    let value = |c: char| flag_value(c, inputs, outputs, order_only, dir);
    lemma_one_flag('o', value);
    lemma_one_flag('i', value);
    lemma_one_flag('f', value);
    lemma_one_flag('b', value);
    lemma_one_flag('B', value);
    reveal_strlit(" ");
    assert(" "@ =~= seq![' ']);
    if forall|i: int| 0 <= i < outputs.len() ==> is_word(#[trigger] outputs[i]) {
        joined_words_are_read_back(outputs);
    }
    if forall|i: int| 0 <= i < order_only.len() ==> is_word(#[trigger] order_only[i]) {
        joined_words_are_read_back(order_only);
    }
    if forall|i: int| 0 <= i < inputs.len() ==> is_word((#[trigger] inputs[i]).path) {
        joined_words_are_read_back(paths_of(inputs));
    }
    if forall|i: int| 0 <= i < inputs.len() ==> is_word((#[trigger] inputs[i]).base) {
        joined_words_are_read_back(bases_of(inputs));
    }
    if forall|i: int| 0 <= i < inputs.len() ==> is_word((#[trigger] inputs[i]).base_no_ext) {
        joined_words_are_read_back(stems_of(inputs));
    }
}

/// One more input, output or order-only input adds a space and its own text to what the
/// flags for them give; the first one stands by itself, and none gives nothing.
pub proof fn one_more_is_added_behind(
    inputs: Seq<InputText>,
    input: InputText,
    outputs: Seq<Seq<char>>,
    output: Seq<char>,
    order_only: Seq<Seq<char>>,
    other: Seq<char>,
    dir: Seq<char>,
)
    ensures
        ({
            let text = |c: char, n: bool, o: bool, i: bool|
                command_text(
                    seq!['%', c],
                    if n {
                        inputs.push(input)
                    } else {
                        inputs
                    },
                    if o {
                        outputs.push(output)
                    } else {
                        outputs
                    },
                    if i {
                        order_only.push(other)
                    } else {
                        order_only
                    },
                    dir,
                );
            &&& outputs.len() == 0 ==> text('o', false, false, false).len() == 0 && text(
                'o',
                false,
                true,
                false,
            ) == output
            &&& outputs.len() > 0 ==> text('o', false, true, false) == text(
                'o',
                false,
                false,
                false,
            ) + seq![' '] + output
            &&& order_only.len() == 0 ==> text('i', false, false, false).len() == 0 && text(
                'i',
                false,
                false,
                true,
            ) == other
            &&& order_only.len() > 0 ==> text('i', false, false, true) == text(
                'i',
                false,
                false,
                false,
            ) + seq![' '] + other
            &&& inputs.len() == 0 ==> {
                &&& text('f', false, false, false).len() == 0
                &&& text('b', false, false, false).len() == 0
                &&& text('B', false, false, false).len() == 0
                &&& text('f', true, false, false) == input.path
                &&& text('b', true, false, false) == input.base
                &&& text('B', true, false, false) == input.base_no_ext
            }
            &&& inputs.len() > 0 ==> {
                &&& text('f', true, false, false) == text('f', false, false, false) + seq![' ']
                    + input.path
                &&& text('b', true, false, false) == text('b', false, false, false) + seq![' ']
                    + input.base
                &&& text('B', true, false, false) == text('B', false, false, false) + seq![' ']
                    + input.base_no_ext
            }
        }),
{
    reveal_strlit(" ");
    assert(" "@ =~= seq![' ']);
    let v = |c: char| flag_value(c, inputs, outputs, order_only, dir);
    let vn = |c: char| flag_value(c, inputs.push(input), outputs, order_only, dir);
    let vo = |c: char| flag_value(c, inputs, outputs.push(output), order_only, dir);
    let vi = |c: char| flag_value(c, inputs, outputs, order_only.push(other), dir);
    lemma_one_flag('o', v);
    lemma_one_flag('o', vo);
    lemma_one_flag('i', v);
    lemma_one_flag('i', vi);
    lemma_one_flag('f', v);
    lemma_one_flag('f', vn);
    lemma_one_flag('b', v);
    lemma_one_flag('b', vn);
    lemma_one_flag('B', v);
    lemma_one_flag('B', vn);
    lemma_join_push(outputs, output);
    lemma_join_push(order_only, other);
    lemma_join_push(paths_of(inputs), input.path);
    lemma_join_push(bases_of(inputs), input.base);
    lemma_join_push(stems_of(inputs), input.base_no_ext);
    assert(paths_of(inputs.push(input)) =~= paths_of(inputs).push(input.path));
    assert(bases_of(inputs.push(input)) =~= bases_of(inputs).push(input.base));
    assert(stems_of(inputs.push(input)) =~= stems_of(inputs).push(input.base_no_ext));
}

proof fn lemma_join_push(parts: Seq<Seq<char>>, x: Seq<char>)
    ensures
        parts.len() == 0 ==> join(parts, seq![' ']).len() == 0 && join(parts.push(x), seq![' '])
            == x,
        parts.len() > 0 ==> join(parts.push(x), seq![' ']) == join(parts, seq![' ']) + seq![' ']
            + x,
{
    assert(parts.push(x).drop_last() =~= parts);
}

/// `%e` gives the extension of the first input, `%d` the name of the directory, `%O` the
/// first output without its extension and `%%` a `%`. A flag that has no meaning stays.
pub proof fn single_flags(
    inputs: Seq<InputText>,
    outputs: Seq<Seq<char>>,
    order_only: Seq<Seq<char>>,
    dir: Seq<char>,
    c: char,
)
    requires
        !seq!['%', 'f', 'b', 'B', 'e', 'd', 'o', 'O', 'i'].contains(c),
    ensures
        inputs.len() > 0 ==> command_text(seq!['%', 'e'], inputs, outputs, order_only, dir)
            == inputs[0].ext,
        inputs.len() == 0 ==> command_text(
            seq!['%', 'e'],
            inputs,
            outputs,
            order_only,
            dir,
        ).len() == 0,
        command_text(seq!['%', 'd'], inputs, outputs, order_only, dir) == dir,
        outputs.len() > 0 ==> command_text(seq!['%', 'O'], inputs, outputs, order_only, dir)
            == without_extension(outputs[0]),
        outputs.len() == 0 ==> command_text(
            seq!['%', 'O'],
            inputs,
            outputs,
            order_only,
            dir,
        ).len() == 0,
        command_text(seq!['%', '%'], inputs, outputs, order_only, dir) == seq!['%'],
        command_text(seq!['%', c], inputs, outputs, order_only, dir) == seq!['%', c],
{
    let value = |c: char| flag_value(c, inputs, outputs, order_only, dir);
    lemma_one_flag('e', value);
    lemma_one_flag('d', value);
    lemma_one_flag('O', value);
    lemma_one_flag('%', value);
    lemma_one_flag(c, value);
    let known = seq!['%', 'f', 'b', 'B', 'e', 'd', 'o', 'O', 'i'];
    assert(known[0] == '%' && known[1] == 'f' && known[2] == 'b' && known[3] == 'B' && known[4]
        == 'e' && known[5] == 'd' && known[6] == 'o' && known[7] == 'O' && known[8] == 'i');
}

/// In an output pattern the flags give the parts of the input that it is for. A flag
/// that has no meaning there stays.
pub proof fn pattern_flags(input: InputText, c: char)
    requires
        !seq!['%', 'f', 'b', 'B', 'e', 'd'].contains(c),
    ensures
        output_text(seq!['%', 'f'], input) == input.path,
        output_text(seq!['%', 'b'], input) == input.base,
        output_text(seq!['%', 'B'], input) == input.base_no_ext,
        output_text(seq!['%', 'e'], input) == input.ext,
        output_text(seq!['%', 'd'], input) == input.dir,
        output_text(seq!['%', '%'], input) == seq!['%'],
        output_text(seq!['%', c], input) == seq!['%', c],
{
    let value = |c: char| pattern_value(c, input);
    lemma_one_flag('f', value);
    lemma_one_flag('b', value);
    lemma_one_flag('B', value);
    lemma_one_flag('e', value);
    lemma_one_flag('d', value);
    lemma_one_flag('%', value);
    lemma_one_flag(c, value);
    let known = seq!['%', 'f', 'b', 'B', 'e', 'd'];
    assert(known[0] == '%' && known[1] == 'f' && known[2] == 'b' && known[3] == 'B' && known[4]
        == 'e' && known[5] == 'd');
}

// ------------------------------------------------ the parts of a path

/// A name of a file: it has characters, none of them is a separator, and it is none of
/// the names of a directory itself and the one above it.
pub open spec fn is_file_name(n: Seq<char>) -> bool {
    n.len() > 0 && !n.contains('/') && n != seq!['.'] && n != seq!['.', '.']
}

/// A directory as it is written before a separator: it does not end with one, nor with
/// a `.` that names itself.
pub open spec fn is_directory(d: Seq<char>) -> bool {
    d.len() > 0 && d.last() != '/' && d != seq!['.'] && !(d.len() > 1 && d.last() == '.' && d[d.len()
        - 2] == '/')
}

proof fn lemma_whole(d: Seq<char>, n: Seq<char>)
    requires
        is_file_name(n),
    ensures
        trim_tail(d + seq!['/'] + n) == d + seq!['/'] + n,
        trim_tail(n) == n,
        rfind_char(d + seq!['/'] + n, '/') == Some(d.len() as int),
        rfind_char(n, '/') is None,
{
    let s = d + seq!['/'] + n;
    assert(n.contains(n.last()));
    assert(s.last() == n.last());
    if n.last() == '.' {
        if n.len() == 1 {
            assert(n =~= seq!['.']);
        } else {
            assert(n.contains(n[n.len() - 2]));
            assert(s[s.len() - 2] == n[n.len() - 2]);
        }
    }
    rfind_char_is_last(s, '/');
    rfind_char_is_last(n, '/');
    assert(s[d.len() as int] == '/');
    assert(s.contains('/'));
    match rfind_char(s, '/') {
        Some(k) => {
            if k > d.len() {
                assert(n.contains(n[k - d.len() - 1]));
                assert(s[k] == n[k - d.len() - 1]);
            }
        },
        None => {},
    }
    match rfind_char(n, '/') {
        Some(k) => {
            assert(n.contains(n[k]));
        },
        None => {},
    }
}

/// The name of a file in a directory is what stands behind the separator, and its
/// directory is what stands before it. A name alone has no directory before it.
pub proof fn a_path_has_a_name_and_a_directory(d: Seq<char>, n: Seq<char>)
    requires
        is_file_name(n),
    ensures
        file_name(d + seq!['/'] + n) == Some(n),
        file_name(n) == Some(n),
        is_directory(d) ==> parent(d + seq!['/'] + n) == Some(d),
        parent(n) == Some(Seq::<char>::empty()),
{
    let s = d + seq!['/'] + n;
    lemma_whole(d, n);
    assert(s.skip(d.len() as int + 1) =~= n);
    assert(n.skip(0) =~= n);
    assert(n.take(0) =~= Seq::empty());
    assert(n != seq!['/']) by {
        assert(n.contains(n[0]));
    }
    assert(s.len() >= 2);
    assert(trim_tail(Seq::<char>::empty()) == Seq::<char>::empty());
    if is_directory(d) {
        let head = s.take(d.len() as int + 1);
        assert(head.last() == '/');
        assert(head.drop_last() =~= d);
        assert(trim_tail(d) == d);
        assert(trim_tail(head) == d);
    }
}

/// The extension of a name is what stands behind its last dot, and its stem what stands
/// before it; a name without a dot has no extension, and neither has one whose only
/// dot comes first.
pub proof fn the_extension_follows_the_last_dot(a: Seq<char>, e: Seq<char>)
    requires
        !e.contains('.'),
    ensures
        a.len() > 0 ==> stem_of(a + seq!['.'] + e) == a && ext_of(a + seq!['.'] + e) == e,
        stem_of(e) == e && ext_of(e).len() == 0,
        stem_of(seq!['.'] + e) == seq!['.'] + e && ext_of(seq!['.'] + e).len() == 0,
{
    let s = a + seq!['.'] + e;
    rfind_char_is_last(s, '.');
    assert(s[a.len() as int] == '.');
    assert(s.contains('.'));
    match rfind_char(s, '.') {
        Some(k) => {
            if k > a.len() {
                assert(e.contains(e[k - a.len() - 1]));
                assert(s[k] == e[k - a.len() - 1]);
            }
        },
        None => {},
    }
    assert(s.take(a.len() as int) =~= a);
    assert(s.skip(a.len() as int + 1) =~= e);
    rfind_char_is_last(e, '.');
    let h = seq!['.'] + e;
    rfind_char_is_last(h, '.');
    assert(h[0] == '.');
    match rfind_char(h, '.') {
        Some(k) => {
            if k > 0 {
                assert(e.contains(e[k - 1]));
                assert(h[k] == e[k - 1]);
            }
        },
        None => {
            assert(h.contains(h[0]));
        },
    }
    match rfind_char(e, '.') {
        Some(k) => {
            assert(e.contains(e[k]));
        },
        None => {},
    }
}

/// The parts of an input whose path is a directory, a separator and a name with an
/// extension; and that path without its extension.
pub proof fn the_parts_of_an_input(d: Seq<char>, a: Seq<char>, e: Seq<char>)
    requires
        is_directory(d),
        is_file_name(a + seq!['.'] + e),
        a.len() > 0,
        !e.contains('.'),
    ensures
        ({
            let name = a + seq!['.'] + e;
            let input = input_of(d + seq!['/'] + name);
            &&& input.path == d + seq!['/'] + name
            &&& input.base == name
            &&& input.base_no_ext == a
            &&& input.ext == e
            &&& input.dir == d
            &&& without_extension(d + seq!['/'] + name) == d + seq!['/'] + a
            &&& input_of(name).path == name
            &&& input_of(name).base == name
            &&& input_of(name).base_no_ext == a
            &&& input_of(name).ext == e
            &&& input_of(name).dir.len() == 0
            &&& without_extension(name) == a
        }),
{
    let name = a + seq!['.'] + e;
    a_path_has_a_name_and_a_directory(d, name);
    the_extension_follows_the_last_dot(a, e);
    assert(d.push('/') + a =~= d + seq!['/'] + a);
}

} // verus!
