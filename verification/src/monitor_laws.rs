//! What holds of watching a project.
use vstd::prelude::*;

use crate::monitor::{
    after_components, change_of, changes, has_head, ignored_dirs, is_hidden_part, is_ignored,
    path_under, touches,
    EventText, FileEventKind, WatchKind,
};
use crate::path_chain_laws::components_of_a_path_below;
use crate::path_laws::{lemma_split_joined, lemma_split_plain, slash};
use crate::paths::{components, is_absolute, real_pieces, trim_tail};
use crate::text::{find, find_is_first_occurrence, split};
use crate::text_laws::pieces_make_up_the_text;

verus! {

/// What is reported of a file that is made, changed or removed is that; other events are no
/// changes.
pub proof fn changes_are_what_happened()
    ensures
        change_of(WatchKind::Create) == Some(FileEventKind::Created),
        change_of(WatchKind::Modify) == Some(FileEventKind::Modified),
        change_of(WatchKind::Remove) == Some(FileEventKind::Deleted),
        change_of(WatchKind::Other) is None,
{
}

/// A change is reported for every path below the root of the project that is not ignored,
/// under its path from there, and for no other.
pub proof fn paths_below_the_root_are_reported(
    root: Seq<char>,
    kind: FileEventKind,
    paths: Seq<Seq<char>>,
    e: EventText,
)
    ensures
        changes(root, kind, paths).contains(e) <==> e.kind == kind && !is_ignored(e.path)
            && exists|i: int|
            0 <= i < paths.len() && path_under(root, #[trigger] paths[i]) == Some(e.path),
    decreases paths.len(),
{
    if paths.len() > 0 {
        let before = paths.drop_last();
        let last = paths.last();
        let n = paths.len() - 1;
        paths_below_the_root_are_reported(root, kind, before, e);
        let had = changes(root, kind, before);
        let now = changes(root, kind, paths);
        assert(paths[n] == last);
        if had.contains(e) {
            let i = choose|i: int| 0 <= i < had.len() && had[i] == e;
            assert(now[i] == e);
            let k = choose|k: int|
                0 <= k < before.len() && path_under(root, #[trigger] before[k]) == Some(e.path);
            assert(paths[k] == before[k]);
        }
        if now.contains(e) {
            let i = choose|i: int| 0 <= i < now.len() && now[i] == e;
            if i < had.len() {
                assert(had[i] == e);
            } else {
                assert(path_under(root, paths[n]) == Some(e.path));
            }
        }
        if e.kind == kind && !is_ignored(e.path) && exists|i: int|
            0 <= i < paths.len() && path_under(root, #[trigger] paths[i]) == Some(e.path) {
            let i = choose|i: int|
                0 <= i < paths.len() && path_under(root, #[trigger] paths[i]) == Some(e.path);
            if i < n {
                assert(before[i] == paths[i]);
            } else {
                assert(now[had.len() as int] == e);
            }
        }
    }
}

proof fn lemma_after(a: Seq<Seq<char>>, b: Seq<Seq<char>>)
    requires
        b.len() > 0,
        b[0].len() > 0 && b[0] != seq!['.'],
    ensures
        after_components(a + b, real_pieces(a).len()) == b,
    decreases a.len(),
{
    if a.len() == 0 {
        assert(a + b =~= b);
    } else {
        let rest = a.drop_first();
        assert((a + b)[0] == a[0]);
        assert((a + b).drop_first() =~= rest + b);
        lemma_after(rest, b);
        lemma_first_piece(a);
    }
}

proof fn lemma_first_piece(a: Seq<Seq<char>>)
    requires
        a.len() > 0,
    ensures
        real_pieces(a).len() == real_pieces(a.drop_first()).len() + (if a[0].len() == 0 || a[0]
            == seq!['.'] {
            0nat
        } else {
            1nat
        }),
    decreases a.len(),
{
    if a.len() > 1 {
        lemma_first_piece(a.drop_last());
        assert(a.drop_last().drop_first() =~= a.drop_first().drop_last());
        assert(a.drop_first().last() == a.last());
        assert(a.drop_last()[0] == a[0]);
    } else {
        assert(a.drop_last() =~= Seq::empty());
        assert(a.drop_first() =~= Seq::empty());
    }
}

/// A path below the root of the project is reported without the root before it.
pub proof fn the_root_is_left_out(root: Seq<char>, rel: Seq<char>)
    requires
        components(root).len() > 0,
        rel.len() > 0,
        split(rel, slash())[0].len() > 0,
        split(rel, slash())[0] != seq!['.'],
        trim_tail(rel) == rel,
    ensures
        path_under(root, root + slash() + rel) == Some(rel),
{
    reveal_strlit("/");
    assert("/"@ =~= slash());
    if root.len() == 0 {
        let none = Seq::<char>::empty();
        assert(root =~= none);
        lemma_split_plain(none);
        assert(split(none, slash()) =~= seq![none]);
        let one = seq![none];
        assert(one.drop_last() =~= Seq::empty());
        assert(real_pieces(one.drop_last()) =~= Seq::<Seq<char>>::empty());
        assert(one.last().len() == 0);
        assert(real_pieces(one) =~= Seq::<Seq<char>>::empty());
        assert(components(none) =~= Seq::empty());
    }
    let path = root + slash() + rel;
    components_of_a_path_below(root, rel);
    lemma_split_joined(root, rel);
    let a = split(root, slash());
    let b = split(rel, slash());
    let r = components(root);
    assert(components(path).subrange(0, r.len() as int) =~= r);
    assert(a.len() > 0);
    assert((a + b)[0] == a[0]);
    assert(path[0] == root[0]);
    assert(has_head(path) <==> is_absolute(root) || a[0] == seq!['.']);
    let k = if has_head(path) {
        (r.len() - 1) as nat
    } else {
        r.len()
    };
    assert(k == real_pieces(a).len());
    lemma_after(a, b);
    pieces_make_up_the_text(rel, slash());
}

/// What is ignored: the directories of the database and of version control, what is in
/// them, and everything with a hidden name on its path.
pub proof fn hidden_paths_are_ignored(a: Seq<char>, name: Seq<char>, b: Seq<char>)
    requires
        name.len() > 1,
        name[0] == '.',
        !name.contains('/'),
    ensures
        is_ignored(name),
        is_ignored(name + slash() + b),
        is_ignored(a + slash() + name),
        is_ignored(a + slash() + name + slash() + b),
{
    reveal_strlit("/");
    reveal_strlit(".");
    assert("/"@ =~= slash());
    assert("."@.len() == 1);
    lemma_split_plain(name);
    let one = split(name, slash());
    assert(one[0] == name);
    assert(is_hidden_part(split(name, "/"@)[0]));
    let s = name + slash() + b;
    lemma_split_joined(name, b);
    assert(split(s, "/"@)[0] == name);
    assert(is_hidden_part(split(s, "/"@)[0]));
    let t = a + slash() + name;
    lemma_split_joined(a, name);
    let k = split(a, slash()).len() as int;
    assert(split(t, "/"@)[k] == name);
    assert(is_hidden_part(split(t, "/"@)[k]));
    let u = a + slash() + name + slash() + b;
    assert(u =~= t + slash() + b);
    lemma_split_joined(t, b);
    assert(split(u, "/"@)[k] == name);
    assert(is_hidden_part(split(u, "/"@)[k]));
}

/// A path on which no name begins with a dot is not ignored.
pub proof fn plain_paths_are_not_ignored(path: Seq<char>)
    requires
        forall|i: int|
            0 <= i < path.len() && #[trigger] path[i] == '.' ==> i > 0 && path[i - 1] != '/',
    ensures
        !is_ignored(path),
{
    reveal_strlit("/");
    reveal_strlit(".tup");
    reveal_strlit(".git");
    reveal_strlit(".hg");
    reveal_strlit(".svn");
    reveal_strlit(".bzr");
    assert("/"@ =~= slash());
    assert forall|i: int| 0 <= i < ignored_dirs().len() implies !touches(
        path,
        #[trigger] ignored_dirs()[i],
    ) by {
        let dir = ignored_dirs()[i];
        assert(dir.len() > 0 && dir[0] == '.');
        if dir.is_prefix_of(path) {
            assert(path.subrange(0, dir.len() as int)[0] == '.');
            assert(path[0] == '.');
        }
        let pat = "/"@ + dir + "/"@;
        find_is_first_occurrence(path, pat);
        if let Some(k) = find(path, pat) {
            let got = path.subrange(k, k + pat.len());
            assert(got[0] == '/' && got[1] == '.');
            assert(path[k] == '/' && path[k + 1] == '.');
        }
    }
    assert(path.skip(0) =~= path);
    lemma_no_hidden(path, 0, path);
}

/// The pieces of a text that stands at a place of a path.
proof fn lemma_no_hidden(path: Seq<char>, at: int, s: Seq<char>)
    requires
        forall|i: int|
            0 <= i < path.len() && #[trigger] path[i] == '.' ==> i > 0 && path[i - 1] != '/',
        0 <= at <= path.len(),
        s == path.skip(at),
        at == 0 || path[at - 1] == '/',
    ensures
        forall|i: int|
            0 <= i < split(s, slash()).len() ==> !is_hidden_part(
                #[trigger] split(s, slash())[i],
            ),
    decreases s.len(),
{
    find_is_first_occurrence(s, slash());
    if s.len() > 0 && s[0] == '.' {
        assert(path[at] == '.');
    }
    match find(s, slash()) {
        Some(k) => {
            assert(s.subrange(k, k + 1)[0] == '/');
            assert(s[k] == path[at + k]);
            let rest = s.skip(k + 1);
            assert(rest =~= path.skip(at + k + 1));
            lemma_no_hidden(path, at + k + 1, rest);
            let all = split(s, slash());
            let more = split(rest, slash());
            assert(all =~= seq![s.take(k)] + more);
            assert forall|i: int| 0 <= i < all.len() implies !is_hidden_part(
                #[trigger] all[i],
            ) by {
                if i > 0 {
                    assert(all[i] == more[i - 1]);
                } else if k > 0 {
                    assert(all[0][0] == s[0]);
                }
            }
        },
        None => {},
    }
}

} // verus!
