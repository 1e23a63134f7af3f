//! What holds of glob patterns.
use vstd::prelude::*;

use crate::parser::glob::{
    after_class, class_body, class_end, class_has, dir_part, expand_all, expand_one, file_part,
    glob_matches, has_glob, listing_text, matching, under, Listing,
};
use crate::sorting::{is_sorted, sort, sort_is_sorted};
use crate::text::rfind_char;

verus! {

/// A `?` matches any one character.
pub proof fn a_question_mark_matches_one(p: Seq<char>, t: Seq<char>)
    ensures
        glob_matches(seq!['?'] + p, t) <==> t.len() > 0 && glob_matches(p, t.skip(1)),
{
    assert((seq!['?'] + p).skip(1) =~= p);
}

/// A character that is not special matches itself and no other.
pub proof fn a_character_matches_itself(x: char, p: Seq<char>, t: Seq<char>)
    requires
        x != '*' && x != '?' && x != '[',
    ensures
        glob_matches(seq![x] + p, t) <==> t.len() > 0 && t[0] == x && glob_matches(p, t.skip(1)),
{
    assert((seq![x] + p).skip(1) =~= p);
}

/// A `*` matches any characters, and none.
pub proof fn a_star_matches_any_characters(p: Seq<char>, t: Seq<char>)
    ensures
        glob_matches(seq!['*'] + p, t) <==> exists|k: int|
            0 <= k <= t.len() && #[trigger] glob_matches(p, t.skip(k)),
    decreases t.len(),
{
    let q = seq!['*'] + p;
    assert(q.skip(1) =~= p);
    assert(t.skip(0) =~= t);
    assert(glob_matches(p, t) == glob_matches(p, t.skip(0)));
    if t.len() > 0 {
        let rest = t.skip(1);
        a_star_matches_any_characters(p, rest);
        if exists|k: int| 0 <= k <= rest.len() && #[trigger] glob_matches(p, rest.skip(k)) {
            let k = choose|k: int| 0 <= k <= rest.len() && #[trigger] glob_matches(p, rest.skip(k));
            assert(rest.skip(k) =~= t.skip(k + 1));
            assert(glob_matches(p, t.skip(k + 1)));
        }
        if exists|k: int| 0 <= k <= t.len() && #[trigger] glob_matches(p, t.skip(k)) {
            let k = choose|k: int| 0 <= k <= t.len() && #[trigger] glob_matches(p, t.skip(k));
            if k > 0 {
                assert(rest.skip(k - 1) =~= t.skip(k));
                assert(glob_matches(p, rest.skip(k - 1)));
            } else {
                assert(t.skip(k) =~= t);
            }
        }
    } else if exists|k: int| 0 <= k <= t.len() && #[trigger] glob_matches(p, t.skip(k)) {
        let k = choose|k: int| 0 <= k <= t.len() && #[trigger] glob_matches(p, t.skip(k));
        assert(t.skip(k) =~= t);
    }
}

/// The members of a class as they are written: a range by its two ends with a
/// `-` between them, or one character by itself.
pub open spec fn members_text(members: Seq<(char, char)>) -> Seq<char>
    decreases members.len(),
{
    if members.len() == 0 {
        Seq::empty()
    } else {
        let (lo, hi) = members[0];
        let first = if lo == hi {
            seq![lo]
        } else {
            seq![lo, '-', hi]
        };
        first + members_text(members.skip(1))
    }
}

/// Members that can be written one after the other: none of them begins with the
/// `]` that closes the class, or with the `-` of a range.
pub open spec fn are_members(members: Seq<(char, char)>) -> bool {
    forall|i: int|
        0 <= i < members.len() ==> (#[trigger] members[i]).0 != ']' && members[i].0 != '-'
}

/// Whether a character is one of the members of a class.
pub open spec fn is_member(members: Seq<(char, char)>, c: char) -> bool {
    exists|i: int| 0 <= i < members.len() && (#[trigger] members[i]).0 <= c <= members[i].1
}

proof fn lemma_members(members: Seq<(char, char)>, rest: Seq<char>, c: char)
    requires
        are_members(members),
        rest.len() > 0 ==> rest[0] == ']',
    ensures
        class_has(members_text(members) + rest, c) == is_member(members, c),
        class_end(members_text(members) + rest) == members_text(members).len(),
    decreases members.len(),
{
    let s = members_text(members) + rest;
    if members.len() == 0 {
        assert(s =~= rest);
    } else {
        let (lo, hi) = members[0];
        let after = members.skip(1);
        assert forall|i: int| 0 <= i < after.len() implies (#[trigger] after[i]).0 != ']'
            && after[i].0 != '-' by {
            assert(after[i] == members[i + 1]);
        }
        lemma_members(after, rest, c);
        let tail = members_text(after) + rest;
        if lo == hi {
            assert(s =~= seq![lo] + tail);
            assert(s.skip(1) =~= tail);
            if after.len() > 0 {
                assert(tail[0] == after[0].0);
            } else {
                assert(tail =~= rest);
            }
            assert(s.len() > 2 ==> s[1] != '-');
        } else {
            assert(s =~= seq![lo, '-', hi] + tail);
            assert(s.skip(3) =~= tail);
        }
        if is_member(members, c) {
            let i = choose|i: int|
                0 <= i < members.len() && (#[trigger] members[i]).0 <= c <= members[i].1;
            if i > 0 {
                assert(after[i - 1] == members[i]);
            }
        }
        if is_member(after, c) {
            let i = choose|i: int|
                0 <= i < after.len() && (#[trigger] after[i]).0 <= c <= after[i].1;
            assert(members[i + 1] == after[i]);
        }
    }
}

/// A class matches one character that is one of its members, and nothing else;
/// the ends of a range belong to it.
pub proof fn a_class_matches_its_members(
    members: Seq<(char, char)>,
    p: Seq<char>,
    t: Seq<char>,
)
    requires
        are_members(members),
        members.len() > 0 ==> members[0].0 != '^',
    ensures
        glob_matches(seq!['['] + members_text(members) + seq![']'] + p, t) <==> t.len() > 0
            && is_member(members, t[0]) && glob_matches(p, t.skip(1)),
{
    let q = seq!['['] + members_text(members) + seq![']'] + p;
    let rest = seq![']'] + p;
    let m = members_text(members) + rest;
    assert(q.skip(1) =~= m);
    if t.len() > 0 {
        lemma_members(members, rest, t[0]);
        if members.len() > 0 {
            assert(m[0] == members[0].0);
        } else {
            assert(m =~= rest);
        }
        assert(class_body(m) == (false, m));
        assert(after_class(m) =~= p);
    }
}

/// A class whose members follow a `^` matches one character that is none of
/// them.
pub proof fn a_negated_class_matches_the_others(
    members: Seq<(char, char)>,
    p: Seq<char>,
    t: Seq<char>,
)
    requires
        are_members(members),
    ensures
        glob_matches(seq!['[', '^'] + members_text(members) + seq![']'] + p, t) <==> t.len() > 0
            && !is_member(members, t[0]) && glob_matches(p, t.skip(1)),
{
    let q = seq!['[', '^'] + members_text(members) + seq![']'] + p;
    let rest = seq![']'] + p;
    let m = members_text(members) + rest;
    assert(q.skip(1) =~= seq!['^'] + m);
    assert(q.skip(1).skip(1) =~= m);
    if t.len() > 0 {
        lemma_members(members, rest, t[0]);
        assert(class_body(q.skip(1)) == (true, m));
        assert(after_class(m) =~= p);
    }
}

/// A range matches the characters from its one end to the other, both ends
/// among them.
pub proof fn a_range_matches_what_lies_between(
    lo: char,
    hi: char,
    c: char,
    p: Seq<char>,
    t: Seq<char>,
)
    requires
        lo != ']' && lo != '^',
    ensures
        glob_matches(seq!['[', lo, '-', hi, ']'] + p, seq![c] + t) <==> lo <= c <= hi
            && glob_matches(p, t),
        glob_matches(seq!['[', '^', lo, '-', hi, ']'] + p, seq![c] + t) <==> !(lo <= c <= hi)
            && glob_matches(p, t),
{
    let q = seq!['[', lo, '-', hi, ']'] + p;
    let n = seq!['[', '^', lo, '-', hi, ']'] + p;
    let m = seq![lo, '-', hi, ']'] + p;
    let rest = seq![']'] + p;
    assert(q.skip(1) =~= m);
    assert(n.skip(1).skip(1) =~= m);
    assert(m.skip(3) =~= rest);
    assert(class_end(rest) == 0);
    assert(class_end(m) == 3);
    assert(!class_has(rest, c));
    assert(after_class(m) =~= p);
    assert((seq![c] + t).skip(1) =~= t);
}

/// A list of characters in brackets matches each of them and no other, and with a
/// `^` before them each one that is not among them.
pub proof fn a_list_matches_what_it_names(
    list: Seq<char>,
    c: char,
    p: Seq<char>,
    t: Seq<char>,
)
    requires
        !list.contains(']') && !list.contains('-'),
        list.len() > 0 ==> list[0] != '^',
    ensures
        glob_matches(seq!['['] + list + seq![']'] + p, seq![c] + t) <==> list.contains(c)
            && glob_matches(p, t),
        glob_matches(seq!['[', '^'] + list + seq![']'] + p, seq![c] + t) <==> !list.contains(c)
            && glob_matches(p, t),
{
    let members = Seq::new(list.len(), |i: int| (list[i], list[i]));
    lemma_list_text(list);
    assert forall|i: int| 0 <= i < members.len() implies (#[trigger] members[i]).0 != ']'
        && members[i].0 != '-' by {
        assert(list.contains(list[i]));
    }
    let text = seq![c] + t;
    assert(text.skip(1) =~= t);
    a_class_matches_its_members(members, p, text);
    a_negated_class_matches_the_others(members, p, text);
    if list.contains(c) {
        let i = choose|i: int| 0 <= i < list.len() && list[i] == c;
        assert(members[i].0 <= c <= members[i].1);
    }
    if is_member(members, c) {
        let i = choose|i: int|
            0 <= i < members.len() && (#[trigger] members[i]).0 <= c <= members[i].1;
        assert(list[i] == c);
    }
}

proof fn lemma_list_text(list: Seq<char>)
    ensures
        members_text(Seq::new(list.len(), |i: int| (list[i], list[i]))) == list,
    decreases list.len(),
{
    let members = Seq::new(list.len(), |i: int| (list[i], list[i]));
    if list.len() > 0 {
        let after = list.skip(1);
        lemma_list_text(after);
        assert(members.skip(1) =~= Seq::new(after.len(), |i: int| (after[i], after[i])));
        assert(seq![list[0]] + after =~= list);
    } else {
        assert(members_text(members) =~= list);
    }
}

/// A text is a pattern where one of its characters is special.
pub proof fn patterns_have_special_characters(s: Seq<char>)
    ensures
        has_glob(s) <==> exists|i: int|
            0 <= i < s.len() && (#[trigger] s[i] == '*' || s[i] == '?' || s[i] == '['),
{
    if has_glob(s) {
        if s.contains('*') {
            let i = choose|i: int| 0 <= i < s.len() && s[i] == '*';
            assert(s[i] == '*');
        } else if s.contains('?') {
            let i = choose|i: int| 0 <= i < s.len() && s[i] == '?';
            assert(s[i] == '?');
        } else {
            let i = choose|i: int| 0 <= i < s.len() && s[i] == '[';
            assert(s[i] == '[');
        }
    }
}

proof fn lemma_last_slash(d: Seq<char>, f: Seq<char>)
    requires
        !f.contains('/'),
    ensures
        rfind_char(d + seq!['/'] + f, '/') == Some(d.len() as int),
    decreases f.len(),
{
    let s = d + seq!['/'] + f;
    if f.len() > 0 {
        let g = f.drop_last();
        assert(f.contains(f.last()));
        assert(!g.contains('/')) by {
            if g.contains('/') {
                let i = choose|i: int| 0 <= i < g.len() && g[i] == '/';
                assert(f[i] == '/');
            }
        }
        lemma_last_slash(d, g);
        assert(s.drop_last() =~= d + seq!['/'] + g);
    } else {
        assert(s.last() == '/');
    }
}

proof fn lemma_no_slash(f: Seq<char>)
    requires
        !f.contains('/'),
    ensures
        rfind_char(f, '/') is None,
    decreases f.len(),
{
    if f.len() > 0 {
        let g = f.drop_last();
        assert(f.contains(f.last()));
        assert(!g.contains('/')) by {
            if g.contains('/') {
                let i = choose|i: int| 0 <= i < g.len() && g[i] == '/';
                assert(f[i] == '/');
            }
        }
        lemma_no_slash(g);
    }
}

/// A pattern is divided at its last `/`: what stands before it is the directory
/// that is searched, and what stands after it is matched against the names there.
pub proof fn a_pattern_is_divided_at_its_last_slash(d: Seq<char>, f: Seq<char>)
    requires
        !f.contains('/'),
    ensures
        dir_part(d + seq!['/'] + f) == d,
        file_part(d + seq!['/'] + f) == f,
        dir_part(f) == Seq::<char>::empty(),
        file_part(f) == f,
        d.len() > 0 ==> under(d, f) == d + seq!['/'] + f,
        under(Seq::empty(), f) == f,
{
    reveal_strlit("/");
    lemma_last_slash(d, f);
    lemma_no_slash(f);
    let s = d + seq!['/'] + f;
    assert(s.take(d.len() as int) =~= d);
    assert(s.skip(d.len() as int + 1) =~= f);
    assert("/"@ =~= seq!['/']);
}

/// The place of a name in what a pattern gives: it is listed, it is not hidden, and
/// the pattern matches it.
pub open spec fn is_match(
    dir: Seq<char>,
    file: Seq<char>,
    names: Seq<Seq<char>>,
    path: Seq<char>,
) -> bool {
    exists|i: int| #[trigger]
        is_match_at(dir, file, names, path, i)
}

/// Whether a path is that of one of the names of a listing, which is not hidden and
/// which the pattern matches.
pub open spec fn is_match_at(
    dir: Seq<char>,
    file: Seq<char>,
    names: Seq<Seq<char>>,
    path: Seq<char>,
    i: int,
) -> bool {
    &&& 0 <= i < names.len()
    &&& !(names[i].len() > 0 && names[i][0] == '.')
    &&& glob_matches(file, names[i])
    &&& path == (if dir.len() == 0 {
        names[i]
    } else {
        dir + seq!['/'] + names[i]
    })
}

proof fn lemma_matching(dir: Seq<char>, file: Seq<char>, names: Seq<Seq<char>>, path: Seq<char>)
    ensures
        matching(dir, file, names).contains(path) <==> is_match(dir, file, names, path),
    decreases names.len(),
{
    let all = matching(dir, file, names);
    if names.len() > 0 {
        let before = names.drop_last();
        let n = names.len() - 1;
        lemma_matching(dir, file, before, path);
        reveal_strlit("/");
        assert("/"@ =~= seq!['/']);
        let had = matching(dir, file, before);
        if is_match(dir, file, before, path) {
            let i = choose|i: int| #[trigger] is_match_at(dir, file, before, path, i);
            assert(is_match_at(dir, file, names, path, i));
            let j = choose|j: int| 0 <= j < had.len() && had[j] == path;
            assert(all[j] == path);
        }
        if is_match_at(dir, file, names, path, n) {
            assert(all == had.push(under(dir, names[n])));
            assert(all[had.len() as int] == path);
        }
        if is_match(dir, file, names, path) {
            let i = choose|i: int| #[trigger] is_match_at(dir, file, names, path, i);
            if i < n {
                assert(is_match_at(dir, file, before, path, i));
            }
        }
        if all.contains(path) {
            let j = choose|j: int| 0 <= j < all.len() && all[j] == path;
            if j < had.len() {
                assert(had[j] == path);
            } else {
                assert(is_match_at(dir, file, names, path, n));
            }
        }
    } else if is_match(dir, file, names, path) {
        let i = choose|i: int| #[trigger] is_match_at(dir, file, names, path, i);
        assert(false);
    }
}

/// A pattern gives the names of its directory that it matches, all of them but the
/// hidden ones and nothing else, in dictionary order; one whose directory is not
/// there gives nothing, and a text that is no pattern gives itself.
pub proof fn a_pattern_gives_what_it_matches(
    pattern: Seq<char>,
    listings: Map<Seq<char>, Listing>,
    path: Seq<char>,
)
    ensures
        match expand_one(pattern, listings) {
            Ok(found) => if !has_glob(pattern) {
                found == seq![pattern]
            } else if !listings.dom().contains(dir_part(pattern)) {
                found.len() == 0
            } else {
                &&& listing_text(listings[dir_part(pattern)]) is Ok
                &&& is_sorted(found)
                &&& found.contains(path) <==> is_match(
                    dir_part(pattern),
                    file_part(pattern),
                    listing_text(listings[dir_part(pattern)])->Ok_0,
                    path,
                )
            },
            Err(m) => {
                &&& has_glob(pattern)
                &&& listings.dom().contains(dir_part(pattern))
                &&& listing_text(listings[dir_part(pattern)]) == Err::<Seq<Seq<char>>, Seq<char>>(m)
            },
        },
{
    let dir = dir_part(pattern);
    if has_glob(pattern) && listings.dom().contains(dir) {
        match listing_text(listings[dir]) {
            Ok(names) => {
                let found = matching(dir, file_part(pattern), names);
                sort_is_sorted(found);
                lemma_matching(dir, file_part(pattern), names, path);
                lemma_same_members(sort(found), found, path);
            },
            Err(m) => {},
        }
    }
}

proof fn lemma_same_members(a: Seq<Seq<char>>, b: Seq<Seq<char>>, x: Seq<char>)
    requires
        a.to_multiset() == b.to_multiset(),
    ensures
        a.contains(x) == b.contains(x),
{
    a.to_multiset_ensures();
    b.to_multiset_ensures();
    assert(a.contains(x) <==> a.to_multiset().count(x) > 0);
    assert(b.contains(x) <==> b.to_multiset().count(x) > 0);
}

/// Two lists of patterns, one after the other, give what the first one gives and
/// then what the second one gives.
pub proof fn patterns_are_expanded_in_order(
    a: Seq<Seq<char>>,
    b: Seq<Seq<char>>,
    listings: Map<Seq<char>, Listing>,
)
    ensures
        match (expand_all(a, listings), expand_all(b, listings)) {
            (Ok(x), Ok(y)) => expand_all(a + b, listings) == Ok::<Seq<Seq<char>>, Seq<char>>(x + y),
            (Err(m), _) => expand_all(a + b, listings) == Err::<Seq<Seq<char>>, Seq<char>>(m),
            (Ok(x), Err(m)) => expand_all(a + b, listings) == Err::<Seq<Seq<char>>, Seq<char>>(m),
        },
        b.len() == 1 ==> expand_all(b, listings) == expand_one(b[0], listings),
    decreases b.len(),
{
    if b.len() == 0 {
        assert(a + b =~= a);
        match expand_all(a, listings) {
            Ok(x) => {
                assert(x + Seq::<Seq<char>>::empty() =~= x);
            },
            Err(m) => {},
        }
    } else {
        let before = b.drop_last();
        patterns_are_expanded_in_order(a, before, listings);
        assert((a + b).drop_last() =~= a + before);
        assert((a + b).last() == b.last());
        match (expand_all(a, listings), expand_all(before, listings), expand_one(b.last(), listings)) {
            (Ok(x), Ok(y), Ok(z)) => {
                assert((x + y) + z =~= x + (y + z));
            },
            _ => {},
        }
        if b.len() == 1 {
            match expand_one(b[0], listings) {
                Ok(z) => {
                    assert(Seq::<Seq<char>>::empty() + z =~= z);
                },
                Err(m) => {},
            }
        }
    }
}

} // verus!
