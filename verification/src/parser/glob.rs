//! Glob patterns for input files.
use vstd::prelude::*;

use crate::ordmap::OrdMap;
use crate::sorting::{sort, sort_strings};
use crate::text::{
    concat3, copy_str, lemma_texts_push, rfind_char, str_first_is, str_rfind_char, str_skip,
    str_take, texts, to_chars,
};

verus! {

/// What listing a directory gave.
#[derive(Debug)]
pub enum Listing {
    /// The names of its entries.
    Names(Vec<String>),
    /// It could not be read; the text says why.
    Failed(String),
}

/// The listings of directories, by the directory part of the patterns that
/// they are for. A directory that does not exist has none.
pub type Listings = OrdMap<String, Listing>;

/// A listing as texts: the names, or why there are none.
pub open spec fn listing_text(l: Listing) -> Result<Seq<Seq<char>>, Seq<char>> {
    match l {
        Listing::Names(v) => Ok(texts(v@)),
        Listing::Failed(m) => Err(m@),
    }
}

/// Whether a text holds a character that makes it a glob pattern.
pub open spec fn has_glob(s: Seq<char>) -> bool {
    s.contains('*') || s.contains('?') || s.contains('[')
}

/// The part of a pattern before its last `/`.
pub open spec fn dir_part(pattern: Seq<char>) -> Seq<char> {
    match rfind_char(pattern, '/') {
        Some(k) => pattern.take(k),
        None => Seq::empty(),
    }
}

/// The part of a pattern after its last `/`.
pub open spec fn file_part(pattern: Seq<char>) -> Seq<char> {
    match rfind_char(pattern, '/') {
        Some(k) => pattern.skip(k + 1),
        None => pattern,
    }
}

/// A name in the directory of a pattern.
pub open spec fn under(dir: Seq<char>, name: Seq<char>) -> Seq<char> {
    if dir.len() == 0 {
        name
    } else {
        dir + "/"@ + name
    }
}

/// The number of characters of a class up to its closing `]`, or of all of
/// them where it has none.
pub open spec fn class_end(s: Seq<char>) -> nat
    decreases s.len(),
{
    if s.len() == 0 || s[0] == ']' {
        0
    } else if s.len() > 2 && s[1] == '-' {
        3 + class_end(s.skip(3))
    } else {
        1 + class_end(s.skip(1))
    }
}

/// Whether a class, whose characters and ranges end at its `]`, names `c`.
pub open spec fn class_has(s: Seq<char>, c: char) -> bool
    decreases s.len(),
{
    if s.len() == 0 || s[0] == ']' {
        false
    } else if s.len() > 2 && s[1] == '-' {
        (s[0] <= c && c <= s[2]) || class_has(s.skip(3), c)
    } else {
        s[0] == c || class_has(s.skip(1), c)
    }
}

/// The class that begins a pattern, after its `[`: whether it is negated, and
/// its members with what follows them.
pub open spec fn class_body(s: Seq<char>) -> (bool, Seq<char>) {
    if s.len() > 0 && s[0] == '^' {
        (true, s.skip(1))
    } else {
        (false, s)
    }
}

/// What follows a class.
pub open spec fn after_class(s: Seq<char>) -> Seq<char> {
    let n = class_end(s) as int;
    if n < s.len() {
        s.skip(n + 1)
    } else {
        Seq::empty()
    }
}

/// Whether a pattern matches a whole text: `*` matches any characters, `?` any
/// one, `[abc]`, `[a-z]` and `[^a]` one of a class, and every other character
/// itself.
pub open spec fn glob_matches(p: Seq<char>, t: Seq<char>) -> bool
    decreases p.len(), t.len(),
{
    if p.len() == 0 {
        t.len() == 0
    } else if p[0] == '*' {
        glob_matches(p.skip(1), t) || (t.len() > 0 && glob_matches(p, t.skip(1)))
    } else if t.len() == 0 {
        false
    } else if p[0] == '?' {
        glob_matches(p.skip(1), t.skip(1))
    } else if p[0] == '[' {
        let (negated, members) = class_body(p.skip(1));
        &&& class_has(members, t[0]) != negated
        &&& glob_matches(after_class(members), t.skip(1))
    } else {
        p[0] == t[0] && glob_matches(p.skip(1), t.skip(1))
    }
}

/// A pattern without special characters matches itself and nothing else.
pub proof fn plain_pattern_matches_itself(p: Seq<char>, t: Seq<char>)
    requires
        !has_glob(p),
    ensures
        glob_matches(p, t) == (p == t),
    decreases p.len(),
{
    if p.len() == 0 {
        if t.len() == 0 {
            assert(p =~= t);
        }
    } else {
        assert(p.contains(p[0]));
        let q = p.skip(1);
        assert forall|c: char| q.contains(c) implies p.contains(c) by {
            let i = choose|i: int| 0 <= i < q.len() && q[i] == c;
            assert(p[i + 1] == c);
        }
        if t.len() > 0 {
            plain_pattern_matches_itself(q, t.skip(1));
            if p == t {
                assert(q =~= t.skip(1));
            }
            if q == t.skip(1) && p[0] == t[0] {
                assert(p =~= seq![p[0]] + q);
                assert(t =~= seq![t[0]] + t.skip(1));
            }
        }
    }
}

/// After a `*`, a pattern matches every text that ends with a match of the rest.
pub proof fn star_matches_any_prefix(p: Seq<char>, t: Seq<char>, k: int)
    requires
        p.len() > 0,
        p[0] == '*',
        0 <= k <= t.len(),
        glob_matches(p.skip(1), t.skip(k)),
    ensures
        glob_matches(p, t),
    decreases k,
{
    if k == 0 {
        assert(t.skip(0) =~= t);
    } else {
        assert(t.skip(1).skip(k - 1) =~= t.skip(k));
        star_matches_any_prefix(p, t.skip(1), k - 1);
    }
}

/// What a pattern after a `*` matches ends with a match of the rest.
pub proof fn what_a_star_matches_ends_with_the_rest(p: Seq<char>, t: Seq<char>)
    requires
        p.len() > 0,
        p[0] == '*',
        glob_matches(p, t),
    ensures
        exists|k: int| 0 <= k <= t.len() && #[trigger] glob_matches(p.skip(1), t.skip(k)),
    decreases t.len(),
{
    if glob_matches(p.skip(1), t) {
        assert(t.skip(0) =~= t);
    } else {
        let rest = t.skip(1);
        what_a_star_matches_ends_with_the_rest(p, rest);
        let k = choose|k: int|
            0 <= k <= rest.len() && #[trigger] glob_matches(p.skip(1), rest.skip(k));
        assert(rest.skip(k) =~= t.skip(k + 1));
    }
}

/// The pattern `*` matches every text.
pub proof fn star_matches_all(t: Seq<char>)
    ensures
        glob_matches(seq!['*'], t),
{
    star_matches_any_prefix(seq!['*'], t, t.len() as int);
}

/// The names of a listing that a pattern matches, hidden ones left out, with
/// their directory before them.
pub open spec fn matching(dir: Seq<char>, file: Seq<char>, names: Seq<Seq<char>>) -> Seq<Seq<char>>
    decreases names.len(),
{
    if names.len() == 0 {
        Seq::empty()
    } else {
        let before = matching(dir, file, names.drop_last());
        let name = names.last();
        if !(name.len() > 0 && name[0] == '.') && glob_matches(file, name) {
            before.push(under(dir, name))
        } else {
            before
        }
    }
}

/// What one pattern expands to.
pub open spec fn expand_one(
    pattern: Seq<char>,
    listings: Map<Seq<char>, Listing>,
) -> Result<Seq<Seq<char>>, Seq<char>> {
    let dir = dir_part(pattern);
    if !has_glob(pattern) {
        Ok(seq![pattern])
    } else if !listings.dom().contains(dir) {
        Ok(Seq::empty())
    } else {
        match listing_text(listings[dir]) {
            Ok(names) => Ok(sort(matching(dir, file_part(pattern), names))),
            Err(m) => Err(m),
        }
    }
}

/// What a list of patterns expands to: what each one expands to, in order, or
/// the first failure.
pub open spec fn expand_all(
    patterns: Seq<Seq<char>>,
    listings: Map<Seq<char>, Listing>,
) -> Result<Seq<Seq<char>>, Seq<char>>
    decreases patterns.len(),
{
    if patterns.len() == 0 {
        Ok(Seq::empty())
    } else {
        match expand_all(patterns.drop_last(), listings) {
            Ok(before) => match expand_one(patterns.last(), listings) {
                Ok(found) => Ok(before + found),
                Err(m) => Err(m),
            },
            Err(m) => Err(m),
        }
    }
}

proof fn lemma_expand_all_fails_early(
    patterns: Seq<Seq<char>>,
    listings: Map<Seq<char>, Listing>,
    n: int,
)
    requires
        0 <= n <= patterns.len(),
        expand_all(patterns.take(n), listings) is Err,
    ensures
        expand_all(patterns, listings) == expand_all(patterns.take(n), listings),
    decreases patterns.len() - n,
{
    if n < patterns.len() {
        assert(patterns.take(n + 1).drop_last() =~= patterns.take(n));
        lemma_expand_all_fails_early(patterns, listings, n + 1);
    } else {
        assert(patterns.take(n) =~= patterns);
    }
}

fn contains_char(v: &Vec<char>, c: char) -> (r: bool)
    ensures
        r == v@.contains(c),
{
    let mut i: usize = 0;
    while i < v.len()
        invariant
            i <= v.len(),
            forall|j: int| 0 <= j < i ==> v@[j] != c,
        decreases v.len() - i,
    {
        if v[i] == c {
            return true;
        }
        i += 1;
    }
    false
}

/// Whether a string holds glob characters.
pub fn is_glob(s: &str) -> (r: bool)
    ensures
        r == has_glob(s@),
{
    let v = to_chars(s);
    contains_char(&v, '*') || contains_char(&v, '?') || contains_char(&v, '[')
}

/// The directory that a pattern searches, empty for that of the rule.
pub fn glob_dir<'a>(pattern: &'a str) -> (r: &'a str)
    ensures
        r@ == dir_part(pattern@),
{
    match str_rfind_char(pattern, '/') {
        Some(k) => str_take(pattern, k),
        None => {
            assert(pattern@.take(0) =~= Seq::empty());
            str_take(pattern, 0)
        },
    }
}

/// The part of a pattern that names files.
pub fn glob_file<'a>(pattern: &'a str) -> (r: &'a str)
    ensures
        r@ == file_part(pattern@),
{
    match str_rfind_char(pattern, '/') {
        Some(k) => str_skip(pattern, k + 1),
        None => pattern,
    }
}

/// Matches a glob pattern against a string.
///
/// Supports `*` (any characters), `?` (one character), `[abc]`, `[a-z]` and
/// `[^a]` (one character of a class).
pub fn glob_pattern_match(pattern: &str, text: &str) -> (r: bool)
    ensures
        r == glob_matches(pattern@, text@),
{
    let p = to_chars(pattern);
    let t = to_chars(text);
    assert(p@.skip(0) =~= p@);
    assert(t@.skip(0) =~= t@);
    glob_match_recursive(p.as_slice(), 0, t.as_slice(), 0)
}

/// Reads the members of a class from `at`: where they end, and whether one of
/// them is `c`.
fn scan_class(pattern: &[char], at: usize, c: char) -> (r: (usize, bool))
    requires
        at <= pattern@.len(),
    ensures
        at <= r.0 <= pattern@.len(),
        r.0 - at == class_end(pattern@.skip(at as int)),
        r.1 == class_has(pattern@.skip(at as int), c),
{
    let mut i: usize = at;
    let mut matched = false;
    while i < pattern.len() && pattern[i] != ']'
        invariant
            at <= i <= pattern@.len(),
            class_end(pattern@.skip(at as int)) == (i - at) + class_end(pattern@.skip(i as int)),
            class_has(pattern@.skip(at as int), c) == (matched || class_has(
                pattern@.skip(i as int),
                c,
            )),
        decreases pattern.len() - i,
    {
        let ghost rest = pattern@.skip(i as int);
        if pattern.len() - i > 2 && pattern[i + 1] == '-' {
            if pattern[i] <= c && c <= pattern[i + 2] {
                matched = true;
            }
            assert(rest.skip(3) =~= pattern@.skip(i + 3));
            i += 3;
        } else {
            if pattern[i] == c {
                matched = true;
            }
            assert(rest.skip(1) =~= pattern@.skip(i + 1));
            i += 1;
        }
    }
    (i, matched)
}

/// Matches the rest of a pattern, from `pi`, against the rest of a text, from
/// `ti`.
pub fn glob_match_recursive(pattern: &[char], pi: usize, text: &[char], ti: usize) -> (r: bool)
    requires
        pi <= pattern@.len(),
        ti <= text@.len(),
    ensures
        r == glob_matches(pattern@.skip(pi as int), text@.skip(ti as int)),
    decreases pattern@.len() - pi,
{
    let mut i: usize = pi;
    let mut j: usize = ti;
    while i < pattern.len()
        invariant
            pi <= i <= pattern.len(),
            j <= text.len(),
            glob_matches(pattern@.skip(pi as int), text@.skip(ti as int)) == glob_matches(pattern@.skip(i as int), text@.skip(j as int)),
        decreases pattern.len() - i,
    {
        let ghost p = pattern@.skip(i as int);
        let ghost t = text@.skip(j as int);
        let c = pattern[i];
        if c == '*' {
            let mut skip: usize = 0;
            assert(p.skip(1) =~= pattern@.skip(i + 1));
            assert(t.skip(0) =~= t);
            loop
                invariant
                    pi <= i < pattern.len(),
                    j + skip <= text.len(),
                    p == pattern@.skip(i as int),
                    t == text@.skip(j as int),
                    p[0] == '*',
                    p.skip(1) == pattern@.skip(i + 1),
                    glob_matches(pattern@.skip(pi as int), text@.skip(ti as int)) == glob_matches(
                        p,
                        t.skip(skip as int),
                    ),
                decreases text.len() - j - skip,
            {
                assert(t.skip(skip as int) =~= text@.skip(j + skip));
                if glob_match_recursive(pattern, i + 1, text, j + skip) {
                    return true;
                }
                if text.len() - j == skip {
                    return false;
                }
                assert(t.skip(skip as int).skip(1) =~= t.skip(skip + 1));
                skip += 1;
            }
        }
        if j == text.len() {
            return false;
        }
        assert(t.skip(1) =~= text@.skip(j + 1));
        if c == '?' {
            assert(p.skip(1) =~= pattern@.skip(i + 1));
            i += 1;
            j += 1;
        } else if c == '[' {
            let negate = i + 1 < pattern.len() && pattern[i + 1] == '^';
            let at: usize = if negate {
                i + 2
            } else {
                i + 1
            };
            let ghost members = pattern@.skip(at as int);
            proof {
                assert(p.skip(1) =~= pattern@.skip(i + 1));
                if negate {
                    assert(p.skip(1).skip(1) =~= members);
                }
                assert(class_body(p.skip(1)) == (negate, members));
            }
            let (end, matched) = scan_class(pattern, at, text[j]);
            if matched == negate {
                return false;
            }
            i = if end < pattern.len() {
                end + 1
            } else {
                end
            };
            assert(after_class(members) =~= pattern@.skip(i as int));
            j += 1;
        } else {
            if text[j] != c {
                return false;
            }
            assert(p.skip(1) =~= pattern@.skip(i + 1));
            i += 1;
            j += 1;
        }
    }
    j == text.len()
}

fn names_matching(dir: &str, file: &str, names: &Vec<String>) -> (r: Vec<String>)
    ensures
        texts(r@) == matching(dir@, file@, texts(names@)),
{
    let mut out: Vec<String> = Vec::new();
    let ghost all = texts(names@);
    let mut i: usize = 0;
    assert(texts(out@) =~= Seq::empty());
    while i < names.len()
        invariant
            i <= names@.len(),
            all == texts(names@),
            texts(out@) == matching(dir@, file@, all.take(i as int)),
        decreases names.len() - i,
    {
        let name = names[i].as_str();
        proof {
            assert(all.take(i + 1).drop_last() =~= all.take(i as int));
            assert(all.take(i + 1).last() == name@);
        }
        if !str_first_is(name, '.') && glob_pattern_match(file, name) {
            let path = if dir.is_empty() {
                copy_str(name)
            } else {
                concat3(dir, "/", name)
            };
            proof {
                lemma_texts_push(out@, path);
            }
            out.push(path);
        }
        i += 1;
    }
    assert(all.take(all.len() as int) =~= all);
    out
}

/// Expands the glob patterns of a list of inputs.
///
/// Strings that are no patterns are passed through. Patterns are matched
/// against the names of their directory, hidden ones left out, and replaced by
/// the matches in dictionary order; one that matches nothing is dropped.
pub fn expand_globs(patterns: &[String], listings: &Listings) -> (r: Result<Vec<String>, String>)
    ensures
        match r {
            Ok(v) => expand_all(texts(patterns@), listings@) == Ok::<Seq<Seq<char>>, Seq<char>>(
                texts(v@),
            ),
            Err(m) => expand_all(texts(patterns@), listings@) == Err::<Seq<Seq<char>>, Seq<char>>(
                m@,
            ),
        },
{
    let mut out: Vec<String> = Vec::new();
    let ghost all = texts(patterns@);
    let mut i: usize = 0;
    proof {
        assert(all.take(0) =~= Seq::empty());
        assert(texts(out@) =~= Seq::empty());
    }
    while i < patterns.len()
        invariant
            i <= patterns@.len(),
            all == texts(patterns@),
            expand_all(all.take(i as int), listings@) == Ok::<Seq<Seq<char>>, Seq<char>>(
                texts(out@),
            ),
        decreases patterns.len() - i,
    {
        let pattern = patterns[i].as_str();
        let ghost before = texts(out@);
        proof {
            assert(all.take(i + 1).drop_last() =~= all.take(i as int));
            assert(all.take(i + 1).last() == pattern@);
        }
        if is_glob(pattern) {
            let dir = glob_dir(pattern);
            match listings.get(&copy_str(dir)) {
                Some(Listing::Names(names)) => {
                    let found = names_matching(dir, glob_file(pattern), names);
                    let mut found = sort_strings(found);
                    let ghost f = found@;
                    let ghost o = out@;
                    out.append(&mut found);
                    assert(texts(out@) =~= texts(o) + texts(f));
                },
                Some(Listing::Failed(m)) => {
                    proof {
                        lemma_expand_all_fails_early(all, listings@, i + 1);
                    }
                    return Err(m.clone());
                },
                None => {
                    assert(before + Seq::<Seq<char>>::empty() =~= before);
                },
            }
        } else {
            let s = copy_str(pattern);
            out.push(s);
            assert(texts(out@) =~= before + seq![pattern@]);
        }
        i += 1;
    }
    assert(all.take(all.len() as int) =~= all);
    Ok(out)
}

} // verus!
