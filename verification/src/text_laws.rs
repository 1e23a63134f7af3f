//! What holds of texts and their parts.
use vstd::prelude::*;

use crate::ordmap::text_lt;
use crate::text::{
    find, find_is_first_occurrence, is_space, join, lines, lines_from, rfind_char, split, strip_cr,
    strip_prefix, strip_suffix, trim, trim_end, trim_start, words, words_from,
};

verus! {

/// A text that is one word: it has characters, and none of them is white space.
pub open spec fn is_word(w: Seq<char>) -> bool {
    w.len() > 0 && forall|i: int| 0 <= i < w.len() ==> !is_space(#[trigger] w[i])
}

proof fn lemma_words_from(cur: Seq<char>, a: Seq<char>, c: char, b: Seq<char>)
    requires
        is_space(c),
    ensures
        words_from(cur, a + seq![c] + b) == words_from(cur, a) + words(b),
    decreases a.len(),
{
    let s = a + seq![c] + b;
    if a.len() == 0 {
        assert(s.drop_first() =~= b);
        assert(s[0] == c);
        if cur.len() == 0 {
            assert(words_from(cur, a) + words(b) =~= words(b));
        }
    } else {
        let rest = a.drop_first();
        assert(s[0] == a[0]);
        assert(s.drop_first() =~= rest + seq![c] + b);
        if is_space(a[0]) {
            lemma_words_from(Seq::empty(), rest, c, b);
            if cur.len() > 0 {
                assert(seq![cur] + (words_from(Seq::empty(), rest) + words(b)) =~= (seq![cur]
                    + words_from(Seq::empty(), rest)) + words(b));
            }
        } else {
            lemma_words_from(cur.push(a[0]), rest, c, b);
        }
    }
}

proof fn lemma_one_word(cur: Seq<char>, w: Seq<char>)
    requires
        forall|i: int| 0 <= i < w.len() ==> !is_space(#[trigger] w[i]),
        cur.len() + w.len() > 0,
    ensures
        words_from(cur, w) == seq![cur + w],
    decreases w.len(),
{
    if w.len() > 0 {
        let rest = w.drop_first();
        assert forall|i: int| 0 <= i < rest.len() implies !is_space(#[trigger] rest[i]) by {
            assert(rest[i] == w[i + 1]);
        }
        lemma_one_word(cur.push(w[0]), rest);
        assert(cur.push(w[0]) + rest =~= cur + w);
    } else {
        assert(cur + w =~= cur);
    }
}

/// White space parts words: two texts with white space between them have the words
/// of the first and then those of the second. A text without white space is one
/// word, the empty text none.
pub proof fn white_space_parts_words(a: Seq<char>, c: char, b: Seq<char>, w: Seq<char>)
    requires
        is_space(c),
        is_word(w),
    ensures
        words(a + seq![c] + b) == words(a) + words(b),
        words(w) == seq![w],
        words(Seq::empty()) == Seq::<Seq<char>>::empty(),
        is_space(' '),
{
    lemma_words_from(Seq::empty(), a, c, b);
    lemma_one_word(Seq::empty(), w);
    assert(Seq::<char>::empty() + w =~= w);
}

proof fn lemma_all_words(cur: Seq<char>, s: Seq<char>)
    requires
        forall|i: int| 0 <= i < cur.len() ==> !is_space(#[trigger] cur[i]),
    ensures
        forall|i: int|
            0 <= i < words_from(cur, s).len() ==> is_word(#[trigger] words_from(cur, s)[i]),
    decreases s.len(),
{
    if s.len() > 0 {
        if is_space(s[0]) {
            lemma_all_words(Seq::empty(), s.drop_first());
            let rest = words_from(Seq::empty(), s.drop_first());
            assert forall|i: int| 0 <= i < words_from(cur, s).len() implies is_word(
                #[trigger] words_from(cur, s)[i],
            ) by {
                if cur.len() > 0 && i > 0 {
                    assert(words_from(cur, s)[i] == rest[i - 1]);
                }
            }
        } else {
            let longer = cur.push(s[0]);
            assert forall|i: int| 0 <= i < longer.len() implies !is_space(#[trigger] longer[i]) by {
                if i < cur.len() {
                    assert(longer[i] == cur[i]);
                }
            }
            lemma_all_words(longer, s.drop_first());
            assert(words_from(cur, s) == words_from(longer, s.drop_first()));
        }
    } else if cur.len() > 0 {
        assert(words_from(cur, s) == seq![cur]);
    }
}

/// Every word has characters, and none of them is white space.
pub proof fn words_hold_no_white_space(s: Seq<char>)
    ensures
        forall|i: int| 0 <= i < words(s).len() ==> is_word(#[trigger] words(s)[i]),
{
    lemma_all_words(Seq::empty(), s);
}

/// Words with single spaces between them are read back one by one.
pub proof fn joined_words_are_read_back(parts: Seq<Seq<char>>)
    requires
        forall|i: int| 0 <= i < parts.len() ==> is_word(#[trigger] parts[i]),
    ensures
        words(join(parts, seq![' '])) == parts,
    decreases parts.len(),
{
    if parts.len() == 0 {
        assert(words(join(parts, seq![' '])) =~= parts);
    } else {
        let before = parts.drop_last();
        assert forall|i: int| 0 <= i < before.len() implies is_word(#[trigger] before[i]) by {
            assert(before[i] == parts[i]);
        }
        joined_words_are_read_back(before);
        let w = parts.last();
        assert(w == parts[parts.len() - 1]);
        if parts.len() == 1 {
            white_space_parts_words(w, ' ', w, w);
            assert(parts =~= seq![w]);
        } else {
            white_space_parts_words(join(before, seq![' ']), ' ', w, w);
            assert(before + seq![w] =~= parts);
        }
    }
}

/// Parts are joined in their order, with the separator between each two of them and
/// nowhere else.
pub proof fn parts_are_joined_in_order(a: Seq<Seq<char>>, b: Seq<Seq<char>>, sep: Seq<char>)
    ensures
        a.len() > 0 && b.len() > 0 ==> join(a + b, sep) == join(a, sep) + sep + join(b, sep),
        a.len() == 1 ==> join(a, sep) == a[0],
        join(Seq::empty(), sep) == Seq::<char>::empty(),
    decreases b.len(),
{
    if a.len() > 0 && b.len() > 0 {
        let all = a + b;
        assert(all.drop_last() =~= a + b.drop_last());
        assert(all.last() == b.last());
        if b.len() == 1 {
            assert(a + b.drop_last() =~= a);
        } else {
            parts_are_joined_in_order(a, b.drop_last(), sep);
            assert(join(a, sep) + sep + join(b.drop_last(), sep) + sep + b.last() =~= join(a, sep)
                + sep + (join(b.drop_last(), sep) + sep + b.last()));
        }
    }
}

proof fn lemma_split_len(s: Seq<char>, pat: Seq<char>)
    ensures
        split(s, pat).len() > 0,
{
}

/// The pieces of a text, joined again, are the text, and no piece holds the
/// separator.
pub proof fn pieces_make_up_the_text(s: Seq<char>, pat: Seq<char>)
    requires
        pat.len() > 0,
    ensures
        join(split(s, pat), pat) == s,
        forall|i: int|
            0 <= i < split(s, pat).len() ==> find(#[trigger] split(s, pat)[i], pat) is None,
    decreases s.len(),
{
    find_is_first_occurrence(s, pat);
    let pieces = split(s, pat);
    match find(s, pat) {
        Some(k) => {
            let first = s.take(k);
            let after = s.skip(k + pat.len());
            let rest = split(after, pat);
            pieces_make_up_the_text(after, pat);
            lemma_split_len(after, pat);
            parts_are_joined_in_order(seq![first], rest, pat);
            assert(first + pat + after =~= s) by {
                assert(s.subrange(k, k + pat.len()) == pat);
            }
            find_is_first_occurrence(first, pat);
            assert(find(first, pat) is None) by {
                match find(first, pat) {
                    Some(j) => {
                        assert(s.subrange(j, j + pat.len()) =~= first.subrange(j, j + pat.len()));
                        assert(false);
                    },
                    None => {},
                }
            }
            assert forall|i: int| 0 <= i < pieces.len() implies find(#[trigger] pieces[i], pat) is None by {
                if i > 0 {
                    assert(pieces[i] == rest[i - 1]);
                }
            }
        },
        None => {},
    }
}

proof fn lemma_trim_start(s: Seq<char>)
    ensures
        trim_start(s).len() <= s.len(),
        trim_start(s) == s.skip(s.len() - trim_start(s).len()),
        forall|i: int| 0 <= i < s.len() - trim_start(s).len() ==> is_space(#[trigger] s[i]),
        trim_start(s).len() > 0 ==> !is_space(trim_start(s)[0]),
    decreases s.len(),
{
    if s.len() > 0 && is_space(s[0]) {
        let rest = s.drop_first();
        lemma_trim_start(rest);
        let r = trim_start(s);
        assert(rest.skip(rest.len() - r.len()) =~= s.skip(s.len() - r.len()));
        assert forall|i: int| 0 <= i < s.len() - r.len() implies is_space(#[trigger] s[i]) by {
            if i > 0 {
                assert(rest[i - 1] == s[i]);
            }
        }
    } else {
        assert(s.skip(0) =~= s);
    }
}

proof fn lemma_trim_end(s: Seq<char>)
    ensures
        trim_end(s).len() <= s.len(),
        trim_end(s) == s.take(trim_end(s).len() as int),
        forall|i: int| trim_end(s).len() <= i < s.len() ==> is_space(#[trigger] s[i]),
        trim_end(s).len() > 0 ==> !is_space(trim_end(s).last()),
    decreases s.len(),
{
    if s.len() > 0 && is_space(s.last()) {
        let rest = s.drop_last();
        lemma_trim_end(rest);
        let r = trim_end(s);
        assert(rest.take(r.len() as int) =~= s.take(r.len() as int));
        assert forall|i: int| r.len() <= i < s.len() implies is_space(#[trigger] s[i]) by {
            if i < rest.len() {
                assert(rest[i] == s[i]);
            }
        }
    } else {
        assert(s.take(s.len() as int) =~= s);
    }
}

/// Trimming takes white space away at the two ends, all of it and nothing else.
pub proof fn trimming_takes_white_space_away(s: Seq<char>)
    ensures
        exists|from: int, to: int|
            #![trigger s.subrange(from, to)]
            {
                &&& 0 <= from <= to <= s.len()
                &&& trim(s) == s.subrange(from, to)
                &&& forall|i: int| 0 <= i < from ==> is_space(#[trigger] s[i])
                &&& forall|i: int| to <= i < s.len() ==> is_space(#[trigger] s[i])
            },
        trim(s).len() > 0 ==> !is_space(trim(s)[0]) && !is_space(trim(s).last()),
{
    let t = trim_start(s);
    lemma_trim_start(s);
    lemma_trim_end(t);
    let from = s.len() - t.len();
    let to = from + trim(s).len();
    assert(trim(s) =~= s.subrange(from, to));
    assert forall|i: int| to <= i < s.len() implies is_space(#[trigger] s[i]) by {
        assert(t[i - from] == s[i]);
    }
    if trim(s).len() > 0 {
        assert(trim(s)[0] == t[0]);
    }
}

/// A text between white space, which neither begins nor ends with any, is what
/// trimming leaves.
pub proof fn what_stands_between_is_left(a: Seq<char>, s: Seq<char>, b: Seq<char>)
    requires
        forall|i: int| 0 <= i < a.len() ==> is_space(#[trigger] a[i]),
        forall|i: int| 0 <= i < b.len() ==> is_space(#[trigger] b[i]),
        s.len() > 0 && !is_space(s[0]) && !is_space(s.last()),
    ensures
        trim(a + s + b) == s,
    decreases a.len(), b.len(),
{
    let all = a + s + b;
    if a.len() > 0 {
        let rest = a.drop_first();
        assert forall|i: int| 0 <= i < rest.len() implies is_space(#[trigger] rest[i]) by {
            assert(rest[i] == a[i + 1]);
        }
        what_stands_between_is_left(rest, s, b);
        assert(all[0] == a[0]);
        assert(all.drop_first() =~= rest + s + b);
    } else {
        assert(all =~= s + b);
        assert(all[0] == s[0]);
        lemma_trim_end_behind(s, b);
    }
}

proof fn lemma_trim_end_behind(s: Seq<char>, b: Seq<char>)
    requires
        forall|i: int| 0 <= i < b.len() ==> is_space(#[trigger] b[i]),
        s.len() > 0 && !is_space(s.last()),
    ensures
        trim_end(s + b) == s,
    decreases b.len(),
{
    let all = s + b;
    if b.len() > 0 {
        let rest = b.drop_last();
        assert forall|i: int| 0 <= i < rest.len() implies is_space(#[trigger] rest[i]) by {
            assert(rest[i] == b[i]);
        }
        lemma_trim_end_behind(s, rest);
        assert(all.last() == b[b.len() - 1]);
        assert(all.drop_last() =~= s + rest);
    } else {
        assert(all =~= s);
    }
}

proof fn lemma_first_line(cur: Seq<char>, a: Seq<char>, b: Seq<char>)
    requires
        !a.contains('\n'),
    ensures
        lines_from(cur, a + seq!['\n'] + b) == seq![strip_cr(cur + a)] + lines(b),
        cur.len() + a.len() > 0 ==> lines_from(cur, a) == seq![cur + a],
    decreases a.len(),
{
    let s = a + seq!['\n'] + b;
    if a.len() > 0 {
        let rest = a.drop_first();
        assert(a.contains(a[0]));
        assert(!rest.contains('\n')) by {
            if rest.contains('\n') {
                let i = choose|i: int| 0 <= i < rest.len() && rest[i] == '\n';
                assert(a[i + 1] == '\n');
            }
        }
        lemma_first_line(cur.push(a[0]), rest, b);
        assert(s[0] == a[0]);
        assert(s.drop_first() =~= rest + seq!['\n'] + b);
        assert(cur.push(a[0]) + rest =~= cur + a);
    } else {
        assert(s.drop_first() =~= b);
        assert(cur + a =~= cur);
    }
}

/// A line feed ends a line, alone or behind a carriage return; what follows it is read
/// by itself. The last line needs no line feed.
pub proof fn line_feeds_end_lines(a: Seq<char>, b: Seq<char>)
    requires
        !a.contains('\n'),
    ensures
        a.len() == 0 || a.last() != '\r' ==> lines(a + seq!['\n'] + b) == seq![a] + lines(b),
        lines(a + seq!['\r', '\n'] + b) == seq![a] + lines(b),
        a.len() > 0 ==> lines(a) == seq![a],
        lines(Seq::empty()) == Seq::<Seq<char>>::empty(),
{
    lemma_first_line(Seq::empty(), a, b);
    assert(Seq::<char>::empty() + a =~= a);
    let r = a + seq!['\r'];
    assert(!r.contains('\n')) by {
        if r.contains('\n') {
            let i = choose|i: int| 0 <= i < r.len() && r[i] == '\n';
            assert(a[i] == '\n');
        }
    }
    lemma_first_line(Seq::empty(), r, b);
    assert(r + seq!['\n'] + b =~= a + seq!['\r', '\n'] + b);
    assert(Seq::<char>::empty() + r =~= r);
    assert(r.drop_last() =~= a);
}

/// `rfind_char` returns the last place where `c` stands, if there is one.
pub proof fn rfind_char_is_last(s: Seq<char>, c: char)
    ensures
        match rfind_char(s, c) {
            Some(k) => 0 <= k < s.len() && s[k] == c && forall|j: int| k < j < s.len() ==> s[j] != c,
            None => !s.contains(c),
        },
    decreases s.len(),
{
    if s.len() > 0 && s.last() != c {
        let t = s.drop_last();
        rfind_char_is_last(t, c);
        assert forall|j: int| 0 <= j < t.len() implies s[j] == t[j] by {}
        if let Some(k) = rfind_char(t, c) {
            assert forall|j: int| k < j < s.len() implies s[j] != c by {
                if j < t.len() {
                    assert(t[j] != c);
                }
            }
        }
        if rfind_char(t, c) is None && s.contains(c) {
            let i = choose|i: int| 0 <= i < s.len() && s[i] == c;
            assert(t[i] == c);
        }
    }
}

/// A prefix or suffix that is there is taken away; where it is not, nothing is
/// given.
pub proof fn what_surrounds_is_stripped(s: Seq<char>, p: Seq<char>, t: Seq<char>)
    ensures
        strip_prefix(p + s, p) == Some(s),
        strip_suffix(s + p, p) == Some(s),
        strip_prefix(t, p) matches Some(r) ==> t == p + r,
        strip_suffix(t, p) matches Some(r) ==> t == r + p,
{
    assert((p + s).subrange(0, p.len() as int) =~= p);
    assert((p + s).skip(p.len() as int) =~= s);
    assert((s + p).subrange(s.len() as int, s.len() + p.len() as int) =~= p);
    assert((s + p).take(s.len() as int) =~= s);
    if p.is_prefix_of(t) {
        assert(t =~= t.subrange(0, p.len() as int) + t.skip(p.len() as int));
    }
    if p.is_suffix_of(t) {
        assert(t =~= t.take(t.len() - p.len()) + t.subrange(t.len() - p.len(), t.len() as int));
    }
}

/// Texts are ordered by the first character in which they differ; a text comes before one that
/// goes on from it.
pub proof fn texts_are_ordered_by_their_first_difference(
    p: Seq<char>,
    c: char,
    d: char,
    a: Seq<char>,
    b: Seq<char>,
)
    ensures
        c < d ==> text_lt(p + seq![c] + a, p + seq![d] + b),
        c > d ==> !text_lt(p + seq![c] + a, p + seq![d] + b),
        text_lt(p, p + seq![c] + a),
        !text_lt(p + a, p),
    decreases p.len(),
{
    if p.len() == 0 {
        assert((p + seq![c] + a)[0] == c);
        assert((p + seq![d] + b)[0] == d);
    } else {
        let q = p.drop_first();
        texts_are_ordered_by_their_first_difference(q, c, d, a, b);
        assert((p + seq![c] + a).drop_first() =~= q + seq![c] + a);
        assert((p + seq![d] + b).drop_first() =~= q + seq![d] + b);
        assert((p + a).drop_first() =~= q + a);
        assert((p + seq![c] + a)[0] == p[0] && (p + seq![d] + b)[0] == p[0] && (p + a)[0] == p[0]);
    }
}

} // verus!
