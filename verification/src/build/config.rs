//! The configuration of a project.
use std::collections::hash_map::DefaultHasher;
use std::hash::Hasher;
use vstd::prelude::*;
use vstd::std_specs::hash::DefaultHasherAdditionalSpecFns;
use vstd::utf8::encode_utf8;

use crate::db::tables::{TablesText, TupDb};
use crate::ordmap::{
    deep, lemma_deep_insert, lemma_map_of_views, map_of, pair_views, sorted_keys, OrdMap,
};
use crate::parser::varsed::vardict_lines;
use crate::text::{
    concat2, concat3, copy_str, find_char, find_char_is_first, is_space, join, join_strings, lines,
    lines_from, same, str_ends_with, str_find_char, str_lines, str_skip, str_slice,
    str_starts_with, str_take, str_trim, strip_cr, texts, trim, trim_end, trim_start,
};

verus! {

// ------------------------------------------------ the configuration file

/// What a line of the configuration sets: `CONFIG_NAME=value`, or
/// `# CONFIG_NAME is not set`, which stands for `n`.
pub open spec fn config_line(line: Seq<char>) -> Option<(Seq<char>, Seq<char>)> {
    let l = trim(line);
    if "CONFIG_"@.is_prefix_of(l) {
        match find_char(l, '=') {
            Some(k) => Some((l.subrange(7, k), l.skip(k + 1))),
            None => None,
        }
    } else if "# CONFIG_"@.is_prefix_of(l) && " is not set"@.is_suffix_of(l) {
        let rest = l.skip(9);
        Some(
            (
                if " is not set"@.is_suffix_of(rest) {
                    rest.take(rest.len() - 11)
                } else {
                    rest
                },
                "n"@,
            ),
        )
    } else {
        None
    }
}

/// The variables that lines set; a later line replaces an earlier one.
pub open spec fn config_vars(ls: Seq<Seq<char>>) -> Map<Seq<char>, Seq<char>>
    decreases ls.len(),
{
    if ls.len() == 0 {
        Map::empty()
    } else {
        let before = config_vars(ls.drop_last());
        match config_line(ls.last()) {
            Some((name, value)) => before.insert(name, value),
            None => before,
        }
    }
}

fn read_config_line(line: &str) -> (r: Option<(String, String)>)
    ensures
        match (r, config_line(line@)) {
            (Some((n, v)), Some((name, value))) => n@ == name && v@ == value,
            (None, None) => true,
            _ => false,
        },
{
    let l = str_trim(line);
    proof {
        reveal_strlit("CONFIG_");
        reveal_strlit("# CONFIG_");
        reveal_strlit(" is not set");
    }
    if str_starts_with(l, "CONFIG_") {
        match str_find_char(l, '=') {
            Some(k) => {
                proof {
                    find_char_is_first(l@, '=');
                    assert forall|j: int| 0 <= j < 7 implies l@[j] == "CONFIG_"@[j] by {
                        assert("CONFIG_"@ =~= l@.subrange(0, 7));
                    }
                    if k < 7 {
                        assert(l@[k as int] == "CONFIG_"@[k as int]);
                    }
                }
                Some((copy_str(str_slice(l, 7, k)), copy_str(str_skip(l, k + 1))))
            },
            None => None,
        }
    } else if str_starts_with(l, "# CONFIG_") && str_ends_with(l, " is not set") {
        let rest = str_skip(l, 9);
        let name = if str_ends_with(rest, " is not set") {
            str_take(rest, rest.unicode_len() - 11)
        } else {
            rest
        };
        Some((copy_str(name), copy_str("n")))
    } else {
        None
    }
}

/// Reads the configuration from the text of its file.
pub fn load_config_vars(content: &str) -> (r: OrdMap<String, String>)
    ensures
        deep(r@) == config_vars(lines(content@)),
{
    let ls = str_lines(content);
    let ghost all = texts(ls@);
    let mut vars: OrdMap<String, String> = OrdMap::new();
    let mut i: usize = 0;
    assert(deep(vars@) =~= Map::<Seq<char>, Seq<char>>::empty());
    while i < ls.len()
        invariant
            i <= ls@.len(),
            all == texts(ls@),
            deep(vars@) == config_vars(all.take(i as int)),
        decreases ls.len() - i,
    {
        proof {
            assert(all.take(i + 1).drop_last() =~= all.take(i as int));
            assert(all.take(i + 1).last() == ls@[i as int]@);
        }
        if let Some((name, value)) = read_config_line(ls[i].as_str()) {
            proof {
                lemma_deep_insert(vars@, name@, value);
            }
            vars.insert(name, value);
        }
        i += 1;
    }
    assert(all.take(all.len() as int) =~= all);
    vars
}

// ------------------------------------------------ the file of variables

/// One line for each variable: its name, `=` and its value.
pub open spec fn entry_lines(s: Seq<(Seq<char>, Seq<char>)>) -> Seq<Seq<char>> {
    Seq::new(s.len(), |i: int| s[i].0 + "="@ + s[i].1)
}

/// The text of a file of variables.
pub open spec fn vardict_of(s: Seq<(Seq<char>, Seq<char>)>) -> Seq<char> {
    join(entry_lines(s), "\n"@) + "\n"@
}

/// The text of the file of variables, one on each line, in the order of their
/// names.
pub fn vardict_text(config: &OrdMap<String, String>) -> (r: String)
    ensures
        r@ == vardict_of(pair_views(config.pairs())),
        map_of(pair_views(config.pairs())) == deep(config@),
        sorted_keys(config.pairs()),
{
    let ghost want = entry_lines(pair_views(config.pairs()));
    let n = config.len();
    proof {
        lemma_map_of_views(config.pairs());
    }
    let mut out: Vec<String> = Vec::new();
    let mut i: usize = 0;
    while i < n
        invariant
            i <= n,
            n == config.pairs().len(),
            want == entry_lines(pair_views(config.pairs())),
            out@.len() == i,
            forall|j: int| 0 <= j < i ==> (#[trigger] out@[j])@ == want[j],
        decreases n - i,
    {
        let (k, v) = config.at(i);
        let line = concat3(k.as_str(), "=", v.as_str());
        proof {
            assert(pair_views(config.pairs())[i as int] == (k@, v@));
            assert(want[i as int] == line@);
        }
        out.push(line);
        i += 1;
    }
    assert(texts(out@) =~= want);
    let body = join_strings(out.as_slice(), "\n");
    concat2(body.as_str(), "\n")
}

/// Whether a variable can stand on a line of its own: neither its name nor its
/// value breaks the line, the name holds no `=`, and no space stands at the
/// ends of the line.
pub open spec fn fits_on_line(name: Seq<char>, value: Seq<char>) -> bool {
    &&& !name.contains('=')
    &&& !name.contains('\n')
    &&& !value.contains('\n')
    &&& trim(name + "="@ + value) == name + "="@ + value
}

proof fn lemma_one_line(cur: Seq<char>, e: Seq<char>, rest: Seq<char>)
    requires
        !e.contains('\n'),
    ensures
        lines_from(cur, e + seq!['\n'] + rest) == seq![strip_cr(cur + e)] + lines_from(
            Seq::empty(),
            rest,
        ),
    decreases e.len(),
{
    let s = e + seq!['\n'] + rest;
    if e.len() == 0 {
        assert(s.drop_first() =~= rest);
        assert(cur + e =~= cur);
    } else {
        let t = e.drop_first();
        assert(s[0] == e[0]);
        assert(e.contains(e[0]));
        assert(s.drop_first() =~= t + seq!['\n'] + rest);
        assert forall|c: char| t.contains(c) implies e.contains(c) by {
            let i = choose|i: int| 0 <= i < t.len() && t[i] == c;
            assert(e[i + 1] == c);
        }
        lemma_one_line(cur.push(e[0]), t, rest);
        assert(cur.push(e[0]) + t =~= cur + e);
    }
}

proof fn lemma_lines_of_join(ls: Seq<Seq<char>>, rest: Seq<char>)
    requires
        ls.len() > 0,
        forall|i: int|
            0 <= i < ls.len() ==> !(#[trigger] ls[i]).contains('\n') && strip_cr(ls[i]) == ls[i],
    ensures
        lines(join(ls, "\n"@) + "\n"@ + rest) == ls + lines(rest),
    decreases ls.len(),
{
    reveal_strlit("\n");
    assert("\n"@ =~= seq!['\n']);
    let last = ls.last();
    assert(last == ls[ls.len() - 1]);
    assert(Seq::<char>::empty() + last =~= last);
    lemma_one_line(Seq::empty(), last, rest);
    if ls.len() == 1 {
        assert(join(ls, "\n"@) == last);
        assert(ls =~= seq![last]);
    } else {
        let init = ls.drop_last();
        let more = last + seq!['\n'] + rest;
        assert forall|i: int| 0 <= i < init.len() implies !(#[trigger] init[i]).contains('\n')
            && strip_cr(init[i]) == init[i] by {
            assert(init[i] == ls[i]);
        }
        lemma_lines_of_join(init, more);
        assert(join(ls, "\n"@) + "\n"@ + rest =~= join(init, "\n"@) + "\n"@ + more);
        assert(init + (seq![last] + lines(rest)) =~= ls + lines(rest));
    }
}

proof fn lemma_trim_end_last(s: Seq<char>)
    ensures
        trim_end(s).len() > 0 ==> !is_space(trim_end(s).last()),
    decreases s.len(),
{
    if s.len() > 0 && is_space(s.last()) {
        lemma_trim_end_last(s.drop_last());
    }
}

proof fn lemma_trim_start_last(s: Seq<char>)
    ensures
        trim_start(s).len() > 0 ==> s.len() > 0 && trim_start(s).last() == s.last(),
    decreases s.len(),
{
    if s.len() > 0 && is_space(s[0]) {
        lemma_trim_start_last(s.skip(1));
        assert(s.drop_first() =~= s.skip(1));
    }
}

/// What is written to the file of variables is read from it again, where each
/// variable fits on a line.
pub proof fn variables_are_read_back(pairs: Seq<(Seq<char>, Seq<char>)>)
    requires
        forall|i: int|
            0 <= i < pairs.len() ==> fits_on_line(
                (#[trigger] pairs[i]).0,
                pairs[i].1,
            ),
    ensures
        vardict_lines(lines(vardict_of(pairs))) == map_of(pairs),
{
    let ls = entry_lines(pairs);
    reveal_strlit("\n");
    reveal_strlit("=");
    assert("\n"@ =~= seq!['\n']);
    if pairs.len() == 0 {
        assert(vardict_of(pairs) =~= seq!['\n']);
        lemma_one_line(Seq::empty(), Seq::empty(), Seq::empty());
        assert(Seq::<char>::empty() + seq!['\n'] + Seq::<char>::empty() =~= seq!['\n']);
        assert(Seq::<char>::empty() + Seq::<char>::empty() =~= Seq::<char>::empty());
        let one = lines(vardict_of(pairs));
        assert(one =~= seq![Seq::<char>::empty()]);
        assert(one.drop_last() =~= Seq::empty());
        assert(trim(one.last()) =~= Seq::empty());
        assert(find_char(trim(one.last()), '=') is None);
        assert(vardict_lines(one.drop_last()) =~= Map::<Seq<char>, Seq<char>>::empty());
        assert(vardict_lines(one) =~= Map::<Seq<char>, Seq<char>>::empty());
    } else {
        assert forall|i: int| 0 <= i < ls.len() implies !(#[trigger] ls[i]).contains('\n')
            && strip_cr(ls[i]) == ls[i] by {
            lemma_entry_line(pairs[i].0, pairs[i].1);
        }
        lemma_lines_of_join(ls, Seq::empty());
        assert(vardict_of(pairs) + Seq::<char>::empty() =~= vardict_of(pairs));
        assert(lines(Seq::<char>::empty()) =~= Seq::empty());
        assert(ls + Seq::<Seq<char>>::empty() =~= ls);
        lemma_entries_read(pairs);
    }
}

proof fn lemma_entry_line(name: Seq<char>, value: Seq<char>)
    requires
        fits_on_line(name, value),
    ensures
        ({
            let e = name + "="@ + value;
            &&& !e.contains('\n')
            &&& strip_cr(e) == e
            &&& find_char(e, '=') == Some(name.len() as int)
            &&& e.take(name.len() as int) == name
            &&& e.skip(name.len() as int + 1) == value
        }),
{
    let e = name + "="@ + value;
    reveal_strlit("=");
    assert forall|i: int| 0 <= i < e.len() implies e[i] != '\n' by {
        if i < name.len() {
            assert(name.contains(name[i]));
        } else if i > name.len() {
            assert(value.contains(value[i - name.len() - 1]));
        }
    }
    lemma_trim_end_last(trim_start(e));
    lemma_trim_end_last(e);
    lemma_trim_start_last(trim_end(e));
    assert(!is_space(e.last()));
    find_char_is_first(e, '=');
    assert(e[name.len() as int] == '=');
    assert forall|i: int| 0 <= i < name.len() implies e[i] != '=' by {
        assert(name.contains(name[i]));
    }
    assert(e.take(name.len() as int) =~= name);
    assert(e.skip(name.len() as int + 1) =~= value);
}

proof fn lemma_entries_read(pairs: Seq<(Seq<char>, Seq<char>)>)
    requires
        forall|i: int|
            0 <= i < pairs.len() ==> fits_on_line(
                (#[trigger] pairs[i]).0,
                pairs[i].1,
            ),
    ensures
        vardict_lines(entry_lines(pairs)) == map_of(pairs),
    decreases pairs.len(),
{
    if pairs.len() > 0 {
        let init = pairs.drop_last();
        assert forall|i: int| 0 <= i < init.len() implies fits_on_line(
            (#[trigger] init[i]).0,
            init[i].1,
        ) by {
            assert(init[i] == pairs[i]);
        }
        lemma_entries_read(init);
        assert(entry_lines(pairs).drop_last() =~= entry_lines(init));
        let p = pairs.last();
        assert(p == pairs[pairs.len() - 1]);
        lemma_entry_line(p.0, p.1);
    }
}

// ------------------------------------------------ whether the configuration changed

/// A hexadecimal digit.
pub open spec fn hex_digit(n: int) -> char {
    if n < 10 {
        (n + '0' as int) as char
    } else {
        (n - 10 + 'a' as int) as char
    }
}

/// The last digits of a number in base sixteen, with leading zeros.
pub open spec fn hex_text(n: int, digits: nat) -> Seq<char>
    decreases digits,
{
    if digits == 0 {
        Seq::empty()
    } else {
        hex_text(n / 16, (digits - 1) as nat).push(hex_digit(n % 16))
    }
}

/// The number that a hexadecimal digit stands for.
pub open spec fn hex_value(c: char) -> int {
    if '0' <= c <= '9' {
        c as int - '0' as int
    } else {
        c as int - 'a' as int + 10
    }
}

/// A number in base sixteen has as many digits as were asked for, each of them one of `0` to
/// `9` and `a` to `f`. The last one stands for what is left by sixteen, and those before it
/// for the rest.
pub proof fn digits_stand_for_the_number(n: int, digits: nat, i: int)
    ensures
        hex_text(n, digits).len() == digits,
        0 <= i < digits ==> {
            let c = hex_text(n, digits)[i];
            '0' <= c <= '9' || 'a' <= c <= 'f'
        },
        digits > 0 ==> n == 16 * (n / 16) + hex_value(hex_text(n, digits).last()),
        digits > 0 ==> hex_text(n, digits).drop_last() == hex_text(n / 16, (digits - 1) as nat),
    decreases digits,
{
    if digits > 0 {
        digits_stand_for_the_number(n / 16, (digits - 1) as nat, i);
        let before = hex_text(n / 16, (digits - 1) as nat);
        assert(hex_text(n, digits).drop_last() =~= before);
        assert(0 <= n % 16 < 16);
    }
}

fn to_hex(n: u64, digits: usize) -> (r: String)
    ensures
        r@ == hex_text(n as int, digits as nat),
    decreases digits,
{
    if digits == 0 {
        return String::new();
    }
    let mut out = to_hex(n / 16, digits - 1);
    let d: u8 = (n % 16) as u8;
    let c: char = if d < 10 {
        (d + 48) as char
    } else {
        (d + 87) as char
    };
    out.push(c);
    out
}

/// The hash of a text, in sixteen hexadecimal digits.
pub open spec fn hash_text(s: Seq<char>) -> Seq<char> {
    hex_text(DefaultHasher::spec_finish(seq![encode_utf8(s), seq![0xffu8]]) as int, 16)
}

/// The hash of a text, to tell whether it changed.
pub fn simple_hash(s: &str) -> (r: String)
    ensures
        r@ == hash_text(s@),
{
    let mut hasher = DefaultHasher::new();
    hasher.write(s.as_bytes());
    let end: [u8; 1] = [0xff];
    hasher.write(end.as_slice());
    proof {
        assert(end@ =~= seq![0xffu8]);
        assert(hasher@ =~= seq![encode_utf8(s@), seq![0xffu8]]);
    }
    to_hex(hasher.finish(), 16)
}

/// What is known of a change of the configuration.
#[derive(Debug)]
pub struct ConfigChange {
    /// Whether the text differs from the one that was seen before.
    pub changed: bool,
    /// Whether one was seen before and it differs.
    pub announced: bool,
}

/// The hash of the configuration that was seen before.
pub open spec fn seen_hash(t: TablesText) -> Seq<char> {
    if t.settings.dom().contains("config_hash"@) {
        t.settings["config_hash"@]
    } else {
        ""@
    }
}

/// Compares the configuration with the one that was seen before, and remembers
/// it.
pub fn note_config(db: &mut TupDb, content: &str) -> (r: ConfigChange)
    ensures
        r.changed == (hash_text(content@) != seen_hash(old(db)@.tables)),
        r.announced == (r.changed && seen_hash(old(db)@.tables) != ""@),
        final(db)@ == old(db)@.with(
            TablesText {
                settings: old(db)@.tables.settings.insert("config_hash"@, hash_text(content@)),
                ..old(db)@.tables
            },
        ),
{
    let hash = simple_hash(content);
    let old_hash = db.config_get_string("config_hash", "");
    let changed = !same(hash.as_str(), old_hash.as_str());
    let announced = changed && !same(old_hash.as_str(), "");
    db.config_set_string("config_hash", hash.as_str());
    ConfigChange { changed, announced }
}

} // verus!
