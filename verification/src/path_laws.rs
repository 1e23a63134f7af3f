//! What holds of paths.
use vstd::prelude::*;

use crate::paths::{
    common_prefix, components, is_absolute, is_name, normal_components, path_join, push_all,
    real_pieces, relative_path, resolve_dots,
};
use crate::text::{find, find_is_first_occurrence, split};

verus! {

/// The separator as a text.
pub open spec fn slash() -> Seq<char> {
    seq!['/']
}

/// Whether a component can stand after the first one: it has characters, none of
/// them is a separator, and it is not `.`.
spec fn is_plain(c: Seq<char>) -> bool {
    c.len() > 0 && !c.contains('/') && c != seq!['.']
}

/// The first separator is found.
proof fn lemma_find_slash(s: Seq<char>, k: int)
    requires
        0 <= k <= s.len(),
        forall|j: int| 0 <= j < k ==> s[j] != '/',
        k < s.len() ==> s[k] == '/',
    ensures
        find(s, slash()) == if k < s.len() {
            Some(k)
        } else {
            None::<int>
        },
{
    find_is_first_occurrence(s, slash());
    match find(s, slash()) {
        Some(j) => {
            assert(s.subrange(j, j + 1)[0] == '/');
            if k < j {
                assert(s.subrange(k, k + 1) =~= slash());
            }
        },
        None => {
            if k < s.len() {
                assert(s.subrange(k, k + 1) =~= slash());
            }
        },
    }
}

/// Two texts with a separator between them split into the pieces of both.
pub proof fn lemma_split_joined(a: Seq<char>, b: Seq<char>)
    ensures
        split(a + slash() + b, slash()) == split(a, slash()) + split(b, slash()),
    decreases a.len(),
{
    let s = a + slash() + b;
    find_is_first_occurrence(a, slash());
    match find(a, slash()) {
        Some(k) => {
            assert(a.subrange(k, k + 1)[0] == '/');
            assert forall|j: int| 0 <= j < k implies s[j] != '/' by {
                if s[j] == '/' {
                    assert(a.subrange(j, j + 1) =~= slash());
                }
            }
            assert(s[k] == a[k]);
            lemma_find_slash(s, k);
            assert(s.take(k) =~= a.take(k));
            assert(s.skip(k + 1) =~= a.skip(k + 1) + slash() + b);
            lemma_split_joined(a.skip(k + 1), b);
            assert(split(s, slash()) =~= seq![a.take(k)] + (split(a.skip(k + 1), slash()) + split(
                b,
                slash(),
            )));
            assert(split(a, slash()) =~= seq![a.take(k)] + split(a.skip(k + 1), slash()));
        },
        None => {
            let k = a.len() as int;
            assert forall|j: int| 0 <= j < k implies s[j] != '/' by {
                if s[j] == '/' {
                    assert(a.subrange(j, j + 1) =~= slash());
                }
            }
            lemma_find_slash(s, k);
            assert(s.take(k) =~= a);
            assert(s.skip(k + 1) =~= b);
        },
    }
}

/// A text without a separator is one piece.
pub proof fn lemma_split_plain(p: Seq<char>)
    requires
        !p.contains('/'),
    ensures
        split(p, slash()) == seq![p],
{
    assert forall|j: int| 0 <= j < p.len() implies p[j] != '/' by {
        assert(p.contains(p[j]));
    }
    lemma_find_slash(p, p.len() as int);
}

/// No piece has a separator in it.
proof fn lemma_pieces(s: Seq<char>)
    ensures
        forall|i: int|
            0 <= i < split(s, slash()).len() ==> !(#[trigger] split(s, slash())[i]).contains('/'),
    decreases s.len(),
{
    find_is_first_occurrence(s, slash());
    match find(s, slash()) {
        Some(k) => {
            let head = s.take(k);
            let rest = split(s.skip(k + 1), slash());
            lemma_pieces(s.skip(k + 1));
            assert(!head.contains('/')) by {
                if head.contains('/') {
                    let j = choose|j: int| 0 <= j < head.len() && head[j] == '/';
                    assert(s.subrange(j, j + 1) =~= slash());
                }
            }
            assert forall|i: int| 0 <= i < split(s, slash()).len() implies !(#[trigger] split(
                s,
                slash(),
            )[i]).contains('/') by {
                if i > 0 {
                    assert(split(s, slash())[i] == rest[i - 1]);
                }
            }
        },
        None => {
            if s.contains('/') {
                let j = choose|j: int| 0 <= j < s.len() && s[j] == '/';
                assert(s.subrange(j, j + 1) =~= slash());
            }
        },
    }
}

proof fn lemma_real_pieces_add(a: Seq<Seq<char>>, b: Seq<Seq<char>>)
    ensures
        real_pieces(a + b) == real_pieces(a) + real_pieces(b),
    decreases b.len(),
{
    if b.len() == 0 {
        assert(a + b =~= a);
        assert(real_pieces(a) + real_pieces(b) =~= real_pieces(a));
    } else {
        assert((a + b).drop_last() =~= a + b.drop_last());
        assert((a + b).last() == b.last());
        lemma_real_pieces_add(a, b.drop_last());
        assert(real_pieces(a + b) =~= real_pieces(a) + real_pieces(b));
    }
}

proof fn lemma_real_piece(p: Seq<char>)
    ensures
        real_pieces(seq![p]) == if p.len() == 0 || p == seq!['.'] {
            Seq::<Seq<char>>::empty()
        } else {
            seq![p]
        },
{
    let one = seq![p];
    assert(one.drop_last() =~= Seq::<Seq<char>>::empty());
    assert(real_pieces(one.drop_last()) == Seq::<Seq<char>>::empty());
    assert(one.last() == p);
    assert(Seq::<Seq<char>>::empty().push(p) =~= one);
}

proof fn lemma_real_pieces_plain(pieces: Seq<Seq<char>>)
    requires
        forall|i: int| 0 <= i < pieces.len() ==> !(#[trigger] pieces[i]).contains('/'),
    ensures
        forall|i: int| 0 <= i < real_pieces(pieces).len() ==> is_plain(#[trigger] real_pieces(pieces)[i]),
    decreases pieces.len(),
{
    if pieces.len() > 0 {
        let b = pieces.drop_last();
        assert forall|i: int| 0 <= i < b.len() implies !(#[trigger] b[i]).contains('/') by {
            assert(b[i] == pieces[i]);
        }
        lemma_real_pieces_plain(b);
        let last = pieces[pieces.len() - 1];
        assert(!last.contains('/'));
        let r = real_pieces(pieces);
        assert forall|i: int| 0 <= i < r.len() implies is_plain(#[trigger] r[i]) by {
            if i < real_pieces(b).len() {
                assert(r[i] == real_pieces(b)[i]);
            } else {
                assert(r[i] == last);
            }
        }
    }
}

/// What a path adds to the components of a directory.
proof fn lemma_components_joined(dir: Seq<char>, p: Seq<char>)
    requires
        is_absolute(dir),
        !is_absolute(p),
    ensures
        components(path_join(dir, p)) == components(dir) + real_pieces(split(p, slash())),
{
    let head = seq![seq!['/']];
    let joined = path_join(dir, p);
    if dir.last() != '/' {
        assert(joined =~= dir + slash() + p);
        lemma_split_joined(dir, p);
        lemma_real_pieces_add(split(dir, slash()), split(p, slash()));
    } else {
        let d = dir.drop_last();
        assert(joined =~= d + slash() + p);
        assert(dir =~= d + slash() + Seq::<char>::empty());
        lemma_split_joined(d, p);
        lemma_split_joined(d, Seq::empty());
        lemma_split_plain(Seq::empty());
        lemma_real_pieces_add(split(d, slash()), split(p, slash()));
        lemma_real_pieces_add(split(d, slash()), seq![Seq::<char>::empty()]);
        lemma_real_piece(Seq::empty());
        assert(real_pieces(split(dir, slash())) =~= real_pieces(split(d, slash())));
    }
    assert(is_absolute(joined)) by {
        assert(joined[0] == dir[0]);
    }
    assert(components(joined) =~= head + (real_pieces(split(dir, slash())) + real_pieces(
        split(p, slash()),
    )));
    assert(components(dir) =~= head + real_pieces(split(dir, slash())));
    assert(components(joined) =~= components(dir) + real_pieces(split(p, slash())));
}

proof fn lemma_resolve_add(acc: Seq<Seq<char>>, a: Seq<Seq<char>>, b: Seq<Seq<char>>)
    ensures
        resolve_dots(acc, a + b) == resolve_dots(resolve_dots(acc, a), b),
    decreases a.len(),
{
    if a.len() == 0 {
        assert(a + b =~= b);
    } else {
        assert((a + b).drop_first() =~= a.drop_first() + b);
        assert((a + b)[0] == a[0]);
        let c = a[0];
        let next = if c == seq!['.', '.'] {
            if acc.len() > 0 && is_name(acc.last()) {
                acc.drop_last()
            } else {
                acc.push(c)
            }
        } else if c == seq!['.'] {
            acc
        } else {
            acc.push(c)
        };
        lemma_resolve_add(next, a.drop_first(), b);
    }
}

/// Whether components are those of an absolute path with its dots resolved: the
/// root comes first, and no `..` follows a name.
spec fn is_resolved(s: Seq<Seq<char>>) -> bool {
    &&& s.len() > 0
    &&& s[0] == seq!['/']
    &&& forall|i: int| 0 < i < s.len() ==> is_plain(#[trigger] s[i])
    &&& forall|i: int| 0 < i < s.len() && #[trigger] s[i] == seq!['.', '.'] ==> !is_name(s[i - 1])
}

proof fn lemma_resolved_from(acc: Seq<Seq<char>>, comps: Seq<Seq<char>>)
    requires
        is_resolved(acc),
        forall|i: int| 0 <= i < comps.len() ==> is_plain(#[trigger] comps[i]),
    ensures
        is_resolved(resolve_dots(acc, comps)),
    decreases comps.len(),
{
    if comps.len() > 0 {
        let c = comps[0];
        let rest = comps.drop_first();
        assert(is_plain(c));
        assert forall|i: int| 0 <= i < rest.len() implies is_plain(#[trigger] rest[i]) by {
            assert(rest[i] == comps[i + 1]);
        }
        if c == seq!['.', '.'] && is_name(acc.last()) {
            let next = acc.drop_last();
            assert(acc.len() > 1);
            assert forall|i: int| 0 < i < next.len() implies is_plain(#[trigger] next[i]) by {
                assert(next[i] == acc[i]);
            }
            assert forall|i: int| 0 < i < next.len() && #[trigger] next[i] == seq![
                '.',
                '.',
            ] implies !is_name(next[i - 1]) by {
                assert(next[i] == acc[i]);
            }
            lemma_resolved_from(next, rest);
        } else {
            let next = acc.push(c);
            assert forall|i: int| 0 < i < next.len() implies is_plain(#[trigger] next[i]) by {
                if i < acc.len() {
                    assert(next[i] == acc[i]);
                }
            }
            assert forall|i: int| 0 < i < next.len() && #[trigger] next[i] == seq![
                '.',
                '.',
            ] implies !is_name(next[i - 1]) by {
                if i < acc.len() {
                    assert(next[i] == acc[i]);
                }
            }
            lemma_resolved_from(next, rest);
        }
    }
}

/// The components of an absolute path with its dots resolved.
proof fn lemma_resolved(s: Seq<char>)
    requires
        is_absolute(s),
    ensures
        is_resolved(normal_components(s)),
{
    let head = seq![seq!['/']];
    let pieces = real_pieces(split(s, slash()));
    lemma_pieces(s);
    lemma_real_pieces_plain(split(s, slash()));
    lemma_resolve_add(Seq::empty(), head, pieces);
    assert(head.drop_first() =~= Seq::empty());
    assert(resolve_dots(Seq::empty(), head) =~= head) by {
        assert(Seq::<Seq<char>>::empty().push(head[0]) =~= head);
        assert(resolve_dots(head, Seq::empty()) == head);
        assert(head[0][0] == '/' && head[0].len() == 1);
    }
    lemma_resolved_from(head, pieces);
}

/// Each `..` takes back one name.
proof fn lemma_ups(f: Seq<Seq<char>>, c: int, ups: Seq<Seq<char>>)
    requires
        0 <= c <= f.len(),
        ups.len() == f.len() - c,
        forall|i: int| c <= i < f.len() ==> is_name(#[trigger] f[i]),
        forall|i: int| 0 <= i < ups.len() ==> #[trigger] ups[i] == seq!['.', '.'],
    ensures
        resolve_dots(f, ups) == f.take(c),
    decreases ups.len(),
{
    if ups.len() == 0 {
        assert(f.take(c) =~= f);
    } else {
        let rest = ups.drop_first();
        assert forall|i: int| 0 <= i < rest.len() implies #[trigger] rest[i] == seq!['.', '.'] by {
            assert(rest[i] == ups[i + 1]);
        }
        let g = f.drop_last();
        assert forall|i: int| c <= i < g.len() implies is_name(#[trigger] g[i]) by {
            assert(g[i] == f[i]);
        }
        assert(is_name(f[f.len() - 1]));
        assert(ups[0] == seq!['.', '.']);
        lemma_ups(g, c, rest);
        assert(g.take(c) =~= f.take(c));
    }
}

/// Components that are resolved are added as they are.
proof fn lemma_downs(t: Seq<Seq<char>>, c: int)
    requires
        is_resolved(t),
        0 < c <= t.len(),
    ensures
        resolve_dots(t.take(c), t.skip(c)) == t,
    decreases t.len() - c,
{
    if c == t.len() {
        assert(t.take(c) =~= t);
        assert(t.skip(c) =~= Seq::empty());
    } else {
        assert(is_plain(t[c]));
        assert(t.skip(c)[0] == t[c]);
        assert(t.skip(c).drop_first() =~= t.skip(c + 1));
        assert(t.take(c).push(t[c]) =~= t.take(c + 1));
        assert(t.take(c).last() == t[c - 1]);
        lemma_downs(t, c + 1);
    }
}

proof fn lemma_common_prefix(a: Seq<Seq<char>>, b: Seq<Seq<char>>)
    ensures
        common_prefix(a, b) <= a.len(),
        common_prefix(a, b) <= b.len(),
        a.take(common_prefix(a, b) as int) == b.take(common_prefix(a, b) as int),
        a.len() > 0 && b.len() > 0 && a[0] == b[0] ==> common_prefix(a, b) > 0,
    decreases a.len(),
{
    let c = common_prefix(a, b) as int;
    if a.len() > 0 && b.len() > 0 && a[0] == b[0] {
        lemma_common_prefix(a.drop_first(), b.drop_first());
        assert(a.take(c) =~= seq![a[0]] + a.drop_first().take(c - 1));
        assert(b.take(c) =~= seq![b[0]] + b.drop_first().take(c - 1));
    } else {
        assert(a.take(0) =~= b.take(0));
    }
}

/// A path that is built from components splits into them.
proof fn lemma_push_all(acc: Seq<char>, parts: Seq<Seq<char>>)
    requires
        acc.len() == 0 || acc.last() != '/',
        !is_absolute(acc),
        forall|i: int| 0 <= i < parts.len() ==> is_plain(#[trigger] parts[i]),
    ensures
        real_pieces(split(push_all(acc, parts), slash())) == real_pieces(split(acc, slash()))
            + parts,
        !is_absolute(push_all(acc, parts)),
        push_all(acc, parts).len() >= acc.len(),
        push_all(acc, parts).len() == 0 ==> parts.len() == 0,
    decreases parts.len(),
{
    if parts.len() == 0 {
        assert(real_pieces(split(acc, slash())) + parts =~= real_pieces(split(acc, slash())));
    } else {
        let p = parts[0];
        let rest = parts.drop_first();
        assert(is_plain(p));
        assert(p.contains(p[0]) && p.contains(p.last()));
        assert forall|i: int| 0 <= i < rest.len() implies is_plain(#[trigger] rest[i]) by {
            assert(rest[i] == parts[i + 1]);
        }
        let next = path_join(acc, p);
        lemma_split_plain(p);
        lemma_real_piece(p);
        if acc.len() == 0 {
            assert(next =~= p);
            lemma_split_plain(acc);
            lemma_real_piece(acc);
        } else {
            assert(next =~= acc + slash() + p);
            assert(next[0] == acc[0]);
            lemma_split_joined(acc, p);
            lemma_real_pieces_add(split(acc, slash()), seq![p]);
        }
        assert(real_pieces(split(next, slash())) =~= real_pieces(split(acc, slash())).push(p));
        assert(next.last() == p.last());
        lemma_push_all(next, rest);
        assert(real_pieces(split(next, slash())) + rest =~= real_pieces(split(acc, slash()))
            + parts);
    }
}

proof fn lemma_push_all_add(acc: Seq<char>, a: Seq<Seq<char>>, b: Seq<Seq<char>>)
    ensures
        push_all(push_all(acc, a), b) == push_all(acc, a + b),
    decreases a.len(),
{
    if a.len() == 0 {
        assert(a + b =~= b);
    } else {
        assert((a + b).drop_first() =~= a.drop_first() + b);
        lemma_push_all_add(path_join(acc, a[0]), a.drop_first(), b);
    }
}

/// The way from one directory to another leads there, unless it would lead up
/// through a `..` at the root.
pub proof fn relative_path_leads_there(from: Seq<char>, to: Seq<char>)
    requires
        is_absolute(from),
        is_absolute(to),
        forall|i: int|
            common_prefix(normal_components(from), normal_components(to)) <= i < normal_components(
                from,
            ).len() ==> is_name(#[trigger] normal_components(from)[i]),
    ensures
        normal_components(path_join(from, relative_path(from, to))) == normal_components(to),
{
    let f = normal_components(from);
    let t = normal_components(to);
    lemma_resolved(from);
    lemma_resolved(to);
    lemma_common_prefix(f, t);
    let c = common_prefix(f, t) as int;
    let up = seq!['.', '.'];
    let ups = Seq::new((f.len() - c) as nat, |i: int| seq!['.', '.']);
    let downs = t.skip(c);
    let parts = ups + downs;
    assert forall|i: int| 0 <= i < parts.len() implies is_plain(#[trigger] parts[i]) by {
        if i < ups.len() {
            assert(parts[i] == up);
            assert(up[0] == '.' && up[1] == '.' && up.len() == 2);
            assert(!up.contains('/'));
        } else {
            assert(parts[i] == t[c + (i - ups.len())]);
        }
    }
    lemma_push_all_add(Seq::empty(), ups, downs);
    let r = push_all(push_all(Seq::empty(), ups), downs);
    lemma_push_all(Seq::empty(), parts);
    lemma_split_plain(Seq::empty());
    lemma_real_piece(Seq::empty());
    assert(Seq::<Seq<char>>::empty() + parts =~= parts);
    let way = relative_path(from, to);
    if r.len() == 0 {
        let dot = seq!['.'];
        assert(dot[0] == '.' && dot.len() == 1);
        assert(!dot.contains('/'));
        lemma_split_plain(dot);
        lemma_real_piece(dot);
        assert(parts =~= Seq::empty());
    }
    assert(real_pieces(split(way, slash())) =~= parts);
    lemma_components_joined(from, way);
    lemma_resolve_add(Seq::empty(), components(from), parts);
    lemma_resolve_add(f, ups, downs);
    lemma_ups(f, c, ups);
    lemma_downs(t, c);
}

} // verus!
