//! What holds of paths, of directories and of those above them.
use vstd::prelude::*;

use crate::build::dirs::{descend, path_below};
use crate::db::tables::TablesText;
use crate::path_laws::{lemma_split_joined, lemma_split_plain, slash};
use crate::paths::{
    components, is_name, parent, parent_is_shorter, path_join, push_all, real_pieces, resolve_dots,
    same_path, up_chain,
};
use crate::platform::init::and_above;
use crate::text::split;
use crate::types::TupId;

verus! {

/// A directory comes first of those above it; each is followed by its parent, up to one
/// that has none.
pub proof fn each_is_followed_by_its_parent(dir: Seq<char>)
    ensures
        and_above(dir).len() > 0,
        and_above(dir)[0] == dir,
        parent(and_above(dir).last()) is None,
        forall|i: int|
            #![trigger and_above(dir)[i]]
            0 < i < and_above(dir).len() ==> parent(and_above(dir)[i - 1]) == Some(
                and_above(dir)[i],
            ),
    decreases dir.len(),
{
    if let Some(p) = parent(dir) {
        parent_is_shorter(dir);
        each_is_followed_by_its_parent(p);
        let rest = and_above(p);
        let all = and_above(dir);
        assert(all =~= seq![dir] + rest);
        assert forall|i: int| #![trigger all[i]] 0 < i < all.len() implies parent(all[i - 1])
            == Some(all[i]) by {
            assert(all[i] == rest[i - 1]);
            if i > 1 {
                assert(all[i - 1] == rest[i - 2]);
                assert(parent(rest[i - 1 - 1]) == Some(rest[i - 1]));
            }
        }
        assert(all.last() == rest.last());
    }
}

/// The directories from one up to the root of the project: the directory comes first, each
/// is followed by its parent, and the root ends them. None but the last is the root.
pub proof fn the_way_up_ends_at_the_root(dir: Seq<char>, root: Seq<char>)
    ensures
        up_chain(dir, root).len() > 0,
        up_chain(dir, root)[0] == dir,
        same_path(up_chain(dir, root).last(), root) || parent(up_chain(dir, root).last()) is None,
        forall|i: int|
            #![trigger up_chain(dir, root)[i]]
            0 < i < up_chain(dir, root).len() ==> parent(up_chain(dir, root)[i - 1]) == Some(
                up_chain(dir, root)[i],
            ) && !same_path(up_chain(dir, root)[i - 1], root),
    decreases dir.len(),
{
    if !same_path(dir, root) {
        if let Some(p) = parent(dir) {
            parent_is_shorter(dir);
            the_way_up_ends_at_the_root(p, root);
            let rest = up_chain(p, root);
            let all = up_chain(dir, root);
            assert(all =~= seq![dir] + rest);
            assert forall|i: int| #![trigger all[i]] 0 < i < all.len() implies parent(all[i - 1])
                == Some(all[i]) && !same_path(all[i - 1], root) by {
                assert(all[i] == rest[i - 1]);
                if i > 1 {
                    assert(all[i - 1] == rest[i - 2]);
                    assert(parent(rest[i - 1 - 1]) == Some(rest[i - 1]));
                }
            }
            assert(all.last() == rest.last());
        }
    }
}

/// To go down some names and then others is to go down all of them; one name leads to the
/// node that has it.
pub proof fn going_down_in_steps(
    t: TablesText,
    from: TupId,
    a: Seq<Seq<char>>,
    b: Seq<Seq<char>>,
)
    ensures
        descend(t, from, a) matches Some(x) ==> descend(t, from, a + b) == descend(t, x, b),
        descend(t, from, a) is None ==> descend(t, from, a + b) is None,
        b.len() == 1 ==> descend(t, from, b) == t.select(from, b[0]),
        descend(t, from, Seq::empty()) == Some(from),
    decreases a.len(),
{
    if b.len() == 1 {
        match t.select(from, b[0]) {
            Some(x) => {
                assert(b.drop_first().len() == 0);
                assert(descend(t, x, b.drop_first()) == Some(x));
            },
            None => {},
        }
    }
    if a.len() == 0 {
        assert(a + b =~= b);
    } else {
        assert((a + b)[0] == a[0]);
        assert((a + b).drop_first() =~= a.drop_first() + b);
        match t.select(from, a[0]) {
            Some(x) => {
                going_down_in_steps(t, x, a.drop_first(), b);
            },
            None => {},
        }
    }
}

proof fn lemma_real_pieces(a: Seq<Seq<char>>, b: Seq<Seq<char>>)
    ensures
        real_pieces(a + b) == real_pieces(a) + real_pieces(b),
    decreases b.len(),
{
    if b.len() == 0 {
        assert(a + b =~= a);
        assert(real_pieces(a) + real_pieces(b) =~= real_pieces(a));
    } else {
        lemma_real_pieces(a, b.drop_last());
        assert((a + b).drop_last() =~= a + b.drop_last());
        assert((a + b).last() == b.last());
        assert(real_pieces(a + b) =~= real_pieces(a) + real_pieces(b));
    }
}

/// A path below a directory has the components of the directory and then its own.
pub proof fn components_of_a_path_below(d: Seq<char>, rel: Seq<char>)
    requires
        d.len() > 0,
    ensures
        components(d + slash() + rel) == components(d) + real_pieces(split(rel, slash())),
{
    let s = d + slash() + rel;
    lemma_split_joined(d, rel);
    lemma_real_pieces(split(d, slash()), split(rel, slash()));
    assert(s[0] == d[0]);
    let a = split(d, slash());
    let b = split(rel, slash());
    assert(a.len() > 0);
    assert((a + b)[0] == a[0]);
    assert(components(s) =~= components(d) + real_pieces(b));
}

/// A file in a directory is found below it under its name, and a file elsewhere is not.
pub proof fn a_name_is_below_its_directory(d: Seq<char>, name: Seq<char>, other: Seq<char>)
    requires
        d.len() > 0,
        name.len() > 0,
        !name.contains('/'),
        name != seq!['.'],
    ensures
        path_below(d + slash() + name, d) == Some(name),
        path_below(other, d) is Some <==> components(d).is_prefix_of(components(other)),
        path_below(d, d) == Some(Seq::<char>::empty()),
{
    let s = d + slash() + name;
    components_of_a_path_below(d, name);
    lemma_split_plain(name);
    let one = seq![name];
    assert(one.drop_last() =~= Seq::empty());
    assert(real_pieces(one.drop_last()) =~= Seq::<Seq<char>>::empty());
    assert(one.last() == name);
    assert(real_pieces(one) =~= one);
    let c = components(d);
    assert(components(s) =~= c + one);
    assert((c + one).subrange(0, c.len() as int) =~= c);
    assert((c + one).skip(c.len() as int) =~= one);
    assert(push_all(Seq::empty(), one) == push_all(
        path_join(Seq::empty(), one[0]),
        one.drop_first(),
    ));
    assert(one.drop_first().len() == 0);
    assert(name.contains(name[0]));
    assert(path_join(Seq::empty(), name) =~= name);
    assert(c.subrange(0, c.len() as int) =~= c);
    assert(c.skip(c.len() as int).len() == 0);
    assert(push_all(Seq::empty(), c.skip(c.len() as int)) =~= Seq::<char>::empty());
}

/// A path seen from a directory is itself where it is absolute, and otherwise stands behind the
/// directory, with one separator between the two.
pub proof fn paths_are_joined(d: Seq<char>, rel: Seq<char>)
    requires
        d.len() > 0,
        rel.len() > 0,
        rel[0] != '/',
    ensures
        d.last() != '/' ==> path_join(d, rel) == d + slash() + rel,
        path_join(d + slash(), rel) == d + slash() + rel,
        path_join(d, slash() + rel) == slash() + rel,
        path_join(Seq::empty(), rel) == rel,
{
    assert(d.push('/') + rel =~= d + slash() + rel);
    assert((d + slash()).last() == '/');
    assert(Seq::<char>::empty() + rel =~= rel);
}

/// To resolve the dots of some components and then of others is to resolve those of all. A name
/// is kept, `.` leads nowhere, and `..` takes back the name before it; where there is none it
/// stays.
pub proof fn dots_are_resolved(
    acc: Seq<Seq<char>>,
    a: Seq<Seq<char>>,
    b: Seq<Seq<char>>,
    name: Seq<char>,
)
    requires
        name != seq!['/'] && name != seq!['.'] && name != seq!['.', '.'],
    ensures
        resolve_dots(acc, a + b) == resolve_dots(resolve_dots(acc, a), b),
        resolve_dots(acc, Seq::empty()) == acc,
        resolve_dots(acc, seq![name]) == acc.push(name),
        resolve_dots(acc, seq![seq!['.']]) == acc,
        resolve_dots(acc.push(name), seq![seq!['.', '.']]) == acc,
        resolve_dots(Seq::empty(), seq![seq!['.', '.']]) == seq![seq!['.', '.']],
    decreases a.len(),
{
    let up = seq!['.', '.'];
    let here = seq!['.'];
    assert(up.len() != here.len());
    assert(seq![name].drop_first() =~= Seq::<Seq<char>>::empty());
    assert(seq![up].drop_first() =~= Seq::<Seq<char>>::empty());
    assert(seq![here].drop_first() =~= Seq::<Seq<char>>::empty());
    assert(resolve_dots(acc.push(name), Seq::empty()) == acc.push(name));
    assert(acc.push(name).last() == name);
    assert(acc.push(name).drop_last() =~= acc);
    let none = Seq::<Seq<char>>::empty();
    assert(resolve_dots(none.push(up), Seq::empty()) == none.push(up));
    assert(none.push(up) =~= seq![up]);
    if a.len() == 0 {
        assert(a + b =~= b);
    } else {
        assert((a + b)[0] == a[0]);
        assert((a + b).drop_first() =~= a.drop_first() + b);
        let c = a[0];
        let next = if c == up {
            if acc.len() > 0 && is_name(acc.last()) {
                acc.drop_last()
            } else {
                acc.push(c)
            }
        } else if c == here {
            acc
        } else {
            acc.push(c)
        };
        dots_are_resolved(next, a.drop_first(), b, name);
    }
}

} // verus!
