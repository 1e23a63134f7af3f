//! Substitution of `@VARIABLE@`, and the files that hold the variables.
use vstd::prelude::*;
use vstd::utf8::{decode_utf8, valid_utf8};

use crate::ordmap::{deep, lemma_deep_insert, OrdMap};
use crate::parser::vardb::lookup;
use crate::text::{
    copy_str, find_char, lines, same, str_find_char, str_lines, str_skip, str_slice, str_take,
    str_trim, str_trim_end_matches, texts, to_chars, trim, trim_end_matches,
};

verus! {

/// Characters of variable names: ASCII letters, digits and `_`.
pub open spec fn is_var_char(c: char) -> bool {
    ('a' <= c && c <= 'z') || ('A' <= c && c <= 'Z') || ('0' <= c && c <= '9') || c == '_'
}

/// The length of the run of variable characters that begins a text.
pub open spec fn var_run(s: Seq<char>) -> nat
    decreases s.len(),
{
    if s.len() > 0 && is_var_char(s[0]) {
        1 + var_run(s.skip(1))
    } else {
        0
    }
}

/// What a variable is replaced by: its value, nothing where it has none, and in
/// binary mode `1` and `0` for `y` and `n`.
pub open spec fn replacement(
    vars: Map<Seq<char>, Seq<char>>,
    name: Seq<char>,
    binmode: bool,
) -> Seq<char> {
    let value = lookup(vars, name);
    if binmode && value == "y"@ {
        "1"@
    } else if binmode && value == "n"@ {
        "0"@
    } else {
        value
    }
}

/// A text in which each `@NAME@` is replaced. An `@` that begins no such
/// reference stays, with the variable characters after it.
pub open spec fn substituted(
    s: Seq<char>,
    vars: Map<Seq<char>, Seq<char>>,
    binmode: bool,
) -> Seq<char>
    decreases s.len(),
{
    if s.len() == 0 {
        Seq::empty()
    } else if s[0] != '@' {
        seq![s[0]] + substituted(s.skip(1), vars, binmode)
    } else {
        let n = var_run(s.skip(1)) as int;
        proof {
            lemma_var_run_bound(s.skip(1));
        }
        if 1 + n < s.len() && s[1 + n] == '@' {
            replacement(vars, s.subrange(1, 1 + n), binmode) + substituted(
                s.skip(n + 2),
                vars,
                binmode,
            )
        } else {
            s.take(1 + n) + substituted(s.skip(1 + n), vars, binmode)
        }
    }
}

/// A text without `@` stays as it is.
pub proof fn nothing_to_substitute(
    s: Seq<char>,
    vars: Map<Seq<char>, Seq<char>>,
    binmode: bool,
)
    requires
        !s.contains('@'),
    ensures
        substituted(s, vars, binmode) == s,
    decreases s.len(),
{
    if s.len() > 0 {
        assert(s[0] != '@');
        let t = s.skip(1);
        assert forall|i: int| 0 <= i < t.len() implies t[i] != '@' by {
            assert(t[i] == s[i + 1]);
        }
        nothing_to_substitute(t, vars, binmode);
        assert(seq![s[0]] + t =~= s);
    } else {
        assert(s =~= Seq::empty());
    }
}

pub proof fn lemma_var_run_bound(s: Seq<char>)
    ensures
        var_run(s) <= s.len(),
    decreases s.len(),
{
    if s.len() > 0 && is_var_char(s[0]) {
        lemma_var_run_bound(s.skip(1));
    }
}

fn char_is_var(c: char) -> (r: bool)
    ensures
        r == is_var_char(c),
{
    ('a' <= c && c <= 'z') || ('A' <= c && c <= 'Z') || ('0' <= c && c <= '9') || c == '_'
}

fn find_var_end(v: &Vec<char>, from: usize) -> (r: usize)
    requires
        from <= v@.len(),
    ensures
        from <= r <= v@.len(),
        r - from == var_run(v@.skip(from as int)),
{
    let mut i: usize = from;
    while i < v.len() && char_is_var(v[i])
        invariant
            from <= i <= v.len(),
            var_run(v@.skip(from as int)) == (i - from) + var_run(v@.skip(i as int)),
        decreases v.len() - i,
    {
        assert(v@.skip(i as int).skip(1) =~= v@.skip(i + 1));
        i += 1;
    }
    i
}

fn replace(vars: &OrdMap<String, String>, name: &str, binmode: bool) -> (r: String)
    ensures
        r@ == replacement(deep(vars@), name@, binmode),
{
    match vars.get(&copy_str(name)) {
        Some(value) => {
            if binmode && same(value.as_str(), "y") {
                copy_str("1")
            } else if binmode && same(value.as_str(), "n") {
                copy_str("0")
            } else {
                value.clone()
            }
        },
        None => {
            proof {
                reveal_strlit("y");
                reveal_strlit("n");
            }
            String::new()
        },
    }
}

/// Replaces each `@VARIABLE@` by the value of the variable, and unknown
/// variables by nothing.
pub fn varsed(input: &str, variables: &OrdMap<String, String>) -> (r: String)
    ensures
        r@ == substituted(input@, deep(variables@), false),
{
    varsed_impl(input, variables, false)
}

/// Replaces each `@VARIABLE@`. In binary mode the values `y` and `n` become `1`
/// and `0`.
pub fn varsed_binary(input: &str, variables: &OrdMap<String, String>, binmode: bool) -> (r: String)
    ensures
        r@ == substituted(input@, deep(variables@), binmode),
{
    varsed_impl(input, variables, binmode)
}

fn varsed_impl(input: &str, variables: &OrdMap<String, String>, binmode: bool) -> (r: String)
    ensures
        r@ == substituted(input@, deep(variables@), binmode),
{
    let v = to_chars(input);
    let mut out = String::new();
    let mut i: usize = 0;
    let ghost s = input@;
    let ghost m = deep(variables@);
    proof {
        assert(s.skip(0) =~= s);
        assert(out@ + substituted(s, m, binmode) =~= substituted(s, m, binmode));
    }
    while i < v.len()
        invariant
            i <= v.len(),
            v@ == s,
            s == input@,
            m == deep(variables@),
            substituted(s, m, binmode) == out@ + substituted(s.skip(i as int), m, binmode),
        decreases v.len() - i,
    {
        let ghost rest = s.skip(i as int);
        let ghost done = out@;
        if v[i] != '@' {
            out.push(v[i]);
            i += 1;
            assert(rest.skip(1) =~= s.skip(i as int));
            assert(out@ + substituted(rest.skip(1), m, binmode) =~= done + (seq![rest[0]]
                + substituted(rest.skip(1), m, binmode)));
        } else {
            assert(rest.skip(1) =~= s.skip(i + 1));
            let end = find_var_end(&v, i + 1);
            let ghost n = var_run(rest.skip(1)) as int;
            if end < v.len() && v[end] == '@' {
                let name = str_slice(input, i + 1, end);
                assert(name@ =~= rest.subrange(1, 1 + n));
                let value = replace(variables, name, binmode);
                out.append(value.as_str());
                i = end + 1;
                assert(rest.skip(n + 2) =~= s.skip(i as int));
                assert(out@ + substituted(rest.skip(n + 2), m, binmode) =~= done + (value@
                    + substituted(rest.skip(n + 2), m, binmode)));
            } else {
                let piece = str_slice(input, i, end);
                assert(piece@ =~= rest.take(1 + n));
                out.append(piece);
                i = end;
                assert(rest.skip(1 + n) =~= s.skip(i as int));
                assert(out@ + substituted(rest.skip(1 + n), m, binmode) =~= done + (piece@
                    + substituted(rest.skip(1 + n), m, binmode)));
            }
        }
    }
    assert(s.skip(v@.len() as int) =~= Seq::empty());
    assert(out@ + Seq::<char>::empty() =~= out@);
    out
}

// ------------------------------------------------ variable files

/// The variables of an entry `KEY=VALUE`, added to others.
pub open spec fn add_entry(m: Map<Seq<char>, Seq<char>>, entry: Seq<char>) -> Map<
    Seq<char>,
    Seq<char>,
> {
    match find_char(entry, '=') {
        Some(k) => m.insert(entry.take(k), entry.skip(k + 1)),
        None => m,
    }
}

/// The variables of a list of lines, each `KEY=VALUE`; a later line replaces an
/// earlier one.
pub open spec fn vardict_lines(ls: Seq<Seq<char>>) -> Map<Seq<char>, Seq<char>>
    decreases ls.len(),
{
    if ls.len() == 0 {
        Map::empty()
    } else {
        add_entry(vardict_lines(ls.drop_last()), trim(ls.last()))
    }
}

/// Adds an entry `KEY=VALUE` to a map; another text is ignored.
fn put_entry(m: &mut OrdMap<String, String>, entry: &str)
    ensures
        deep(final(m)@) == add_entry(deep(old(m)@), entry@),
{
    match str_find_char(entry, '=') {
        Some(k) => {
            let value = copy_str(str_skip(entry, k + 1));
            let key = copy_str(str_take(entry, k));
            proof {
                lemma_deep_insert(m@, key@, value);
            }
            m.insert(key, value);
        },
        None => {},
    }
}

/// Parses a text with one `KEY=VALUE` on each line.
pub fn parse_vardict_text(data: &str) -> (r: OrdMap<String, String>)
    ensures
        deep(r@) == vardict_lines(lines(data@)),
{
    let ls = str_lines(data);
    let ghost all = texts(ls@);
    let mut vars: OrdMap<String, String> = OrdMap::new();
    let mut i: usize = 0;
    assert(deep(vars@) =~= Map::empty());
    while i < ls.len()
        invariant
            i <= ls@.len(),
            all == texts(ls@),
            deep(vars@) == vardict_lines(all.take(i as int)),
        decreases ls.len() - i,
    {
        proof {
            assert(all.take(i + 1).drop_last() =~= all.take(i as int));
            assert(all.take(i + 1).last() == ls@[i as int]@);
        }
        put_entry(&mut vars, str_trim(ls[i].as_str()));
        i += 1;
    }
    assert(all.take(all.len() as int) =~= all);
    vars
}

/// The number whose four bytes, the lowest first, stand at `at`.
pub open spec fn number_at(data: Seq<u8>, at: int) -> int {
    data[at] + 256 * data[at + 1] + 65536 * data[at + 2] + 16777216 * data[at + 3]
}

/// The number of entries that a binary file announces.
pub open spec fn entry_count(data: Seq<u8>) -> int {
    number_at(data, 0)
}

/// Where the entries of a binary file begin: after the count and the offsets.
pub open spec fn header_size(data: Seq<u8>) -> int {
    4 + 4 * entry_count(data)
}

/// Where an entry of a binary file begins.
pub open spec fn entry_start(data: Seq<u8>, i: int) -> int {
    header_size(data) + number_at(data, 4 + 4 * i)
}

/// Where an entry of a binary file ends: where the next one begins, or at the
/// end of the file.
pub open spec fn entry_end(data: Seq<u8>, i: int) -> int {
    if i + 1 < entry_count(data) && entry_start(data, i + 1) < data.len() {
        entry_start(data, i + 1)
    } else {
        data.len() as int
    }
}

/// Whether a binary file holds the header that it announces.
pub open spec fn has_header(data: Seq<u8>) -> bool {
    data.len() >= 4 && data.len() >= header_size(data)
}

/// Whether no entry of a binary file ends before it begins.
pub open spec fn entries_in_order(data: Seq<u8>) -> bool {
    has_header(data) ==> forall|i: int|
        0 <= i < entry_count(data) && entry_start(data, i) < data.len() ==> #[trigger] entry_start(
            data,
            i,
        ) <= entry_end(data, i)
}

/// The variables of the first `n` entries of a binary file. Entries outside the
/// file, and those that are not UTF-8, are left out.
pub open spec fn binary_entries(data: Seq<u8>, n: nat) -> Map<Seq<char>, Seq<char>>
    decreases n,
{
    if n == 0 {
        Map::empty()
    } else {
        let before = binary_entries(data, (n - 1) as nat);
        let start = entry_start(data, n - 1);
        let bytes = data.subrange(start, entry_end(data, n - 1));
        if start >= data.len() || !valid_utf8(bytes) {
            before
        } else {
            add_entry(before, trim_end_matches(decode_utf8(bytes), '\0'))
        }
    }
}

/// The variables of a binary file.
pub open spec fn vardict_binary(data: Seq<u8>) -> Map<Seq<char>, Seq<char>> {
    if has_header(data) {
        binary_entries(data, entry_count(data) as nat)
    } else {
        Map::empty()
    }
}

/// `std::str::from_utf8`: bytes that are UTF-8 give the text that they encode,
/// others give nothing.
#[verifier::external_body]
fn utf8_text(bytes: &[u8]) -> (r: Option<String>)
    ensures
        match r {
            Some(s) => valid_utf8(bytes@) && s@ == decode_utf8(bytes@),
            None => !valid_utf8(bytes@),
        },
{
    match std::str::from_utf8(bytes) {
        Ok(s) => Some(s.to_owned()),
        Err(_) => None,
    }
}

fn read_number(data: &[u8], at: usize) -> (r: u64)
    requires
        at + 4 <= data@.len(),
    ensures
        r == number_at(data@, at as int),
        r <= 0xffff_ffff,
{
    let a: u64 = data[at] as u64;
    let b: u64 = data[at + 1] as u64;
    let c: u64 = data[at + 2] as u64;
    let d: u64 = data[at + 3] as u64;
    a + 256 * b + 65536 * c + 16777216 * d
}

/// The header of a binary file, where it is complete: the number of entries
/// and the size of the header.
fn read_header(data: &[u8]) -> (r: Option<(usize, usize)>)
    ensures
        match r {
            Some((n, h)) => {
                &&& has_header(data@)
                &&& n == entry_count(data@)
                &&& h == header_size(data@)
                &&& h <= data@.len()
            },
            None => !has_header(data@),
        },
{
    if data.len() < 4 {
        return None;
    }
    let n: u64 = read_number(data, 0);
    let h: u64 = 4 + 4 * n;
    if (data.len() as u64) < h {
        return None;
    }
    Some((n as usize, h as usize))
}

fn find_entry(data: &[u8], n: usize, h: usize, i: usize) -> (r: (u64, usize))
    requires
        has_header(data@),
        n == entry_count(data@),
        h == header_size(data@),
        i < n,
    ensures
        r.0 == entry_start(data@, i as int),
        r.1 == entry_end(data@, i as int),
        r.1 <= data@.len(),
{
    let start: u64 = h as u64 + read_number(data, 4 + 4 * i);
    if i + 1 < n {
        let next: u64 = h as u64 + read_number(data, 4 + 4 * (i + 1));
        if next < data.len() as u64 {
            return (start, next as usize);
        }
    }
    (start, data.len())
}

/// Whether no entry of a binary file ends before it begins.
pub fn vardict_in_order(data: &[u8]) -> (r: bool)
    ensures
        r == entries_in_order(data@),
{
    match read_header(data) {
        Some((n, h)) => {
            let mut i: usize = 0;
            while i < n
                invariant
                    i <= n,
                    has_header(data@),
                    n == entry_count(data@),
                    h == header_size(data@),
                    forall|j: int|
                        0 <= j < i && entry_start(data@, j) < data@.len()
                            ==> #[trigger] entry_start(data@, j) <= entry_end(data@, j),
                decreases n - i,
            {
                let (start, end) = find_entry(data, n, h, i);
                if start < data.len() as u64 && start > end as u64 {
                    return false;
                }
                i += 1;
            }
            true
        },
        None => true,
    }
}

/// Parses a binary variable file.
///
/// It holds the number of entries, the offset of each, and then the entries
/// `KEY=VALUE`, each of which may end with null bytes. Numbers have four bytes,
/// the lowest first.
pub fn parse_vardict_binary(data: &[u8]) -> (r: OrdMap<String, String>)
    requires
        entries_in_order(data@),
    ensures
        deep(r@) == vardict_binary(data@),
{
    let mut vars: OrdMap<String, String> = OrdMap::new();
    assert(deep(vars@) =~= Map::empty());
    let (n, h) = match read_header(data) {
        Some(x) => x,
        None => {
            return vars;
        },
    };
    let mut i: usize = 0;
    while i < n
        invariant
            i <= n,
            has_header(data@),
            entries_in_order(data@),
            n == entry_count(data@),
            h == header_size(data@),
            deep(vars@) == binary_entries(data@, i as nat),
        decreases n - i,
    {
        let (start, end) = find_entry(data, n, h, i);
        if start < data.len() as u64 {
            let start: usize = start as usize;
            assert(entry_start(data@, i as int) <= entry_end(data@, i as int));
            let bytes = vstd::slice::slice_subrange(data, start, end);
            match utf8_text(bytes) {
                Some(text) => {
                    put_entry(&mut vars, str_trim_end_matches(text.as_str(), '\0'));
                },
                None => {},
            }
        }
        i += 1;
    }
    vars
}

/// Whether a byte can begin a text file of variables: an ASCII letter or digit,
/// `_` or `#`.
pub open spec fn begins_text(b: u8) -> bool {
    (0x61 <= b <= 0x7a) || (0x41 <= b <= 0x5a) || (0x30 <= b <= 0x39) || b == 0x5f || b == 0x23
}

/// Whether a variable file seems to be binary: it has at least four bytes, and
/// the first cannot begin a text.
pub fn is_binary_vardict(data: &[u8]) -> (r: bool)
    ensures
        r == (data@.len() >= 4 && !begins_text(data@[0])),
{
    if data.len() < 4 {
        return false;
    }
    let b: u8 = data[0];
    !((0x61 <= b && b <= 0x7a) || (0x41 <= b && b <= 0x5a) || (0x30 <= b && b <= 0x39) || b == 0x5f
        || b == 0x23)
}

/// The variables of a file in either format. A text that is not UTF-8 has none.
pub fn parse_vardict(data: &[u8]) -> (r: OrdMap<String, String>)
    requires
        data@.len() >= 4 && !begins_text(data@[0]) ==> entries_in_order(data@),
    ensures
        deep(r@) == if data@.len() >= 4 && !begins_text(data@[0]) {
            vardict_binary(data@)
        } else if valid_utf8(data@) {
            vardict_lines(lines(decode_utf8(data@)))
        } else {
            Map::empty()
        },
{
    if is_binary_vardict(data) {
        return parse_vardict_binary(data);
    }
    match utf8_text(data) {
        Some(text) => parse_vardict_text(text.as_str()),
        None => {
            let vars: OrdMap<String, String> = OrdMap::new();
            assert(deep(vars@) =~= Map::empty());
            vars
        },
    }
}

} // verus!
