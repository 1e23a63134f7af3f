//! What holds of finding nodes, of ghosts, and of what is read from a database.
use vstd::prelude::*;

use crate::db::entry::{common_len, names_of, path_of, ups, way, CacheText, EntryText};
use crate::db::errors::DbErrorText;
use crate::db::ghosts::{pass_removes_placeholders, reclaim_removes_placeholders};
use crate::db::links::input_ids;
use crate::db::path_resolve::{is_passable, walk};
use crate::db::rows::{find_named, is_named, is_taken, RowText};
use crate::db::snapshot::put_rows;
use crate::db::tables::{ins, outs, TablesText, TupFlags};
use crate::db::variant::{config_line, config_of};
use crate::ids::{ascending, ascending_lists, ids_without, lemma_increasing_no_duplicates};
use crate::text::{find_char, find_char_is_first, join, trim};
use crate::text_laws::parts_are_joined_in_order;
use crate::types::{NodeType, TupId};

verus! {

// ------------------------------------------------ ghosts

/// Whether something needs a node: a node is in it or comes from it, or a normal link leads
/// from it; for a group, also a normal link to it or a sticky one from it.
pub open spec fn is_needed(t: TablesText, id: TupId) -> bool {
    ||| exists|x: TupId| #[trigger]
        t.nodes.dom().contains(x) && (t.nodes[x].dir == id || t.nodes[x].srcid == id.0)
    ||| exists|x: TupId| #[trigger] t.normal.contains((id, x))
    ||| t.nodes[id].node_type == NodeType::Group && exists|x: TupId| #[trigger]
        t.normal.contains((x, id))
    ||| t.nodes[id].node_type == NodeType::Group && exists|x: TupId| #[trigger]
        t.sticky.contains((id, x))
}

/// A ghost, a group or a generated directory goes where nothing needs it and it is not named
/// `tup.config`; any other node stays.
pub proof fn what_is_not_needed_goes(t: TablesText, id: TupId)
    requires
        t.nodes.dom().contains(id),
    ensures
        t.is_reclaimable(id) <==> {
            &&& t.nodes[id].node_type == NodeType::GhostNode || t.nodes[id].node_type
                == NodeType::Group || t.nodes[id].node_type == NodeType::GeneratedDir
            &&& t.nodes[id].name != "tup.config"@
            &&& !is_needed(t, id)
        },
        t.is_reclaimable(id) ==> !t.reclaim(seq![id]).0.nodes.dom().contains(id),
        !t.is_reclaimable(id) ==> t.reclaim(seq![id]).0 == t,
{
    assert(outs(t.normal, id) == Set::<TupId>::empty() <==> forall|x: TupId|
        !#[trigger] t.normal.contains((id, x))) by {
        if outs(t.normal, id) == Set::<TupId>::empty() {
            assert forall|x: TupId| !#[trigger] t.normal.contains((id, x)) by {
                assert(!outs(t.normal, id).contains(x));
            }
        }
        if forall|x: TupId| !#[trigger] t.normal.contains((id, x)) {
            assert(outs(t.normal, id) =~= Set::<TupId>::empty());
        }
    }
    assert(outs(t.sticky, id) == Set::<TupId>::empty() <==> forall|x: TupId|
        !#[trigger] t.sticky.contains((id, x))) by {
        if outs(t.sticky, id) == Set::<TupId>::empty() {
            assert forall|x: TupId| !#[trigger] t.sticky.contains((id, x)) by {
                assert(!outs(t.sticky, id).contains(x));
            }
        }
        if forall|x: TupId| !#[trigger] t.sticky.contains((id, x)) {
            assert(outs(t.sticky, id) =~= Set::<TupId>::empty());
        }
    }
    assert(ins(t.normal, id) == Set::<TupId>::empty() <==> forall|x: TupId|
        !#[trigger] t.normal.contains((x, id))) by {
        if ins(t.normal, id) == Set::<TupId>::empty() {
            assert forall|x: TupId| !#[trigger] t.normal.contains((x, id)) by {
                assert(!ins(t.normal, id).contains(x));
            }
        }
        if forall|x: TupId| !#[trigger] t.normal.contains((x, id)) {
            assert(ins(t.normal, id) =~= Set::<TupId>::empty());
        }
    }
    let ids = seq![id];
    assert(ids.drop_last() =~= Seq::empty());
    assert(ids.last() == id);
    assert(t.reclaim_pass(ids.drop_last()) == (t, Seq::<TupId>::empty(), 0nat));
    if t.is_reclaimable(id) {
        let (u, dirs, count) = t.reclaim_pass(ids);
        assert(!u.nodes.dom().contains(id));
        reclaim_removes_placeholders(u, dirs);
        pass_removes_placeholders(t, ids);
    }
}

/// Where the last of what a directory held goes, the directory goes too if nothing else needs it
/// and it is one that can go; each that goes is counted.
pub proof fn directories_of_what_went_go_too(t: TablesText, id: TupId)
    requires
        t.nodes.dom().contains(id),
        t.is_reclaimable(id),
        t.nodes[id].dir.0 != 0,
        t.nodes[id].dir != id,
    ensures
        ({
            let up = t.nodes[id].dir;
            let (u, _, count) = t.reclaim(seq![id]);
            &&& t.nodes.dom().contains(up) && t.erase(id).is_reclaimable(up)
                ==> !u.nodes.dom().contains(up) && count >= 2
            &&& t.nodes.dom().contains(up) && !t.erase(id).is_reclaimable(up)
                ==> u.nodes.dom().contains(up) && u.nodes[up] == t.nodes[up] && count == 1
        }),
{
    let ids = seq![id];
    let up = t.nodes[id].dir;
    assert(ids.drop_last() =~= Seq::empty());
    assert(t.reclaim_pass(ids.drop_last()) == (t, Seq::<TupId>::empty(), 0nat));
    let e = t.erase(id);
    let none = Seq::<TupId>::empty();
    assert(none.push(up) =~= seq![up]);
    assert(t.reclaim_pass(ids) == (e, seq![up], 1nat));
    assert(t.reclaim(ids) == (e.reclaim(seq![up]).0, e.reclaim(seq![up]).1, 1
        + e.reclaim(seq![up]).2));
    if t.nodes.dom().contains(up) {
        assert(e.nodes.dom().contains(up) && e.nodes[up] == t.nodes[up]);
        what_is_not_needed_goes(e, up);
        let above = seq![up];
        assert(above.drop_last() =~= Seq::empty());
        assert(e.reclaim_pass(above.drop_last()) == (e, Seq::<TupId>::empty(), 0nat));
    }
}

/// Candidates are looked at one after the other, each in what those before it left.
pub proof fn candidates_are_looked_at_in_order(t: TablesText, a: Seq<TupId>, b: Seq<TupId>)
    ensures
        ({
            let (u, dirs, count) = t.reclaim_pass(a);
            let (v, more, n) = u.reclaim_pass(b);
            t.reclaim_pass(a + b) == (v, dirs + more, count + n)
        }),
    decreases b.len(),
{
    let (u, dirs, count) = t.reclaim_pass(a);
    if b.len() == 0 {
        assert(a + b =~= a);
        assert(dirs + Seq::<TupId>::empty() =~= dirs);
    } else {
        candidates_are_looked_at_in_order(t, a, b.drop_last());
        assert((a + b).drop_last() =~= a + b.drop_last());
        assert((a + b).last() == b.last());
        let (w, some, m) = u.reclaim_pass(b.drop_last());
        let dir = w.nodes[b.last()].dir;
        assert((dirs + some).push(dir) =~= dirs + some.push(dir));
    }
}

/// A node that goes is gone with its links and marks, or, where another node is in it or comes
/// from it, becomes a ghost that comes from nothing.
pub proof fn a_node_goes_or_becomes_a_ghost(t: TablesText, id: TupId, f: TupFlags)
    requires
        t.nodes.dom().contains(id),
        t.nodes[id].id == id,
    ensures
        ({
            let u = t.delete_or_ghost(id);
            let held = exists|x: TupId| #[trigger]
                t.nodes.dom().contains(x) && (t.nodes[x].dir == id || t.nodes[x].srcid == id.0);
            &&& held ==> {
                &&& u.nodes.dom().contains(id)
                &&& u.nodes[id] == (RowText {
                    node_type: NodeType::GhostNode,
                    srcid: -1i64,
                    ..t.nodes[id]
                })
                &&& u.normal == t.normal && u.sticky == t.sticky && u.flags == t.flags
            }
            &&& !held ==> {
                &&& !u.nodes.dom().contains(id)
                &&& !(u.flags)(f).contains(id)
                &&& forall|l: (TupId, TupId)| #[trigger]
                    u.normal.contains(l) <==> t.normal.contains(l) && l.0 != id && l.1 != id
                &&& forall|l: (TupId, TupId)| #[trigger]
                    u.sticky.contains(l) <==> t.sticky.contains(l) && l.0 != id && l.1 != id
            }
            &&& forall|x: TupId| #[trigger]
                t.nodes.dom().contains(x) && x != id ==> u.nodes.dom().contains(x) && u.nodes[x]
                    == t.nodes[x]
        }),
{
}

// ------------------------------------------------ paths of nodes

/// To walk some parts of a path and then others is to walk all of them. A name leads to the
/// node of that name where that is a directory or a ghost, and is an error where it is
/// something else or is not there; `.` leads nowhere.
pub proof fn paths_are_walked_in_steps(
    nodes: Map<TupId, RowText>,
    cache: CacheText,
    from: TupId,
    a: Seq<Seq<char>>,
    b: Seq<Seq<char>>,
    name: Seq<char>,
)
    requires
        name != "."@ && name != ".."@,
    ensures
        walk(nodes, cache, from, a).1 matches Ok(Some(x)) ==> walk(nodes, cache, from, a + b)
            == walk(nodes, walk(nodes, cache, from, a).0, x, b),
        walk(nodes, cache, from, a).1 is Err ==> walk(nodes, cache, from, a + b) == walk(
            nodes,
            cache,
            from,
            a,
        ),
        walk(nodes, cache, from, seq!["."@]) == (cache, Ok::<Option<TupId>, DbErrorText>(
            Some(from),
        )),
        match find_named(nodes, from, name) {
            Some(id) => {
                let t = nodes[id].node_type;
                if t == NodeType::Dir || t == NodeType::GeneratedDir || t == NodeType::GhostNode {
                    walk(nodes, cache, from, seq![name]) == (cache, Ok::<
                        Option<TupId>,
                        DbErrorText,
                    >(Some(id)))
                } else {
                    walk(nodes, cache, from, seq![name]).1 is Err
                }
            },
            None => walk(nodes, cache, from, seq![name]).1 is Err,
        },
    decreases a.len(),
{
    let one = seq![name];
    assert(one.drop_first() =~= Seq::empty());
    let here = seq!["."@];
    assert(here.drop_first() =~= Seq::empty());
    assert(walk(nodes, cache, from, Seq::empty()) == (cache, Ok::<Option<TupId>, DbErrorText>(
        Some(from),
    )));
    match find_named(nodes, from, name) {
        Some(id) => {
            assert(walk(nodes, cache, id, Seq::empty()) == (cache, Ok::<
                Option<TupId>,
                DbErrorText,
            >(Some(id))));
        },
        None => {},
    }
    if a.len() == 0 {
        assert(a + b =~= b);
    } else {
        let rest = a.drop_first();
        assert((a + b)[0] == a[0]);
        assert((a + b).drop_first() =~= rest + b);
        if a[0] == "."@ {
            paths_are_walked_in_steps(nodes, cache, from, rest, b, name);
        } else if a[0] == ".."@ {
            let (c, r) = cache.load(nodes, from);
            if r is Ok && c.entries[from].row.dir.0 > 0 {
                paths_are_walked_in_steps(nodes, c, c.entries[from].row.dir, rest, b, name);
            }
        } else {
            match find_named(nodes, from, a[0]) {
                Some(id) => {
                    if is_passable(nodes[id].node_type) {
                        paths_are_walked_in_steps(nodes, cache, id, rest, b, name);
                    }
                },
                None => {},
            }
        }
    }
}

proof fn lemma_common(c: Seq<TupId>, a: Seq<TupId>, b: Seq<TupId>)
    requires
        a.len() == 0 || b.len() == 0 || a[0] != b[0],
    ensures
        common_len(c + a, c + b) == c.len(),
    decreases c.len(),
{
    if c.len() == 0 {
        assert(c + a =~= a);
        assert(c + b =~= b);
    } else {
        assert((c + a).drop_first() =~= c.drop_first() + a);
        assert((c + b).drop_first() =~= c.drop_first() + b);
        assert((c + a)[0] == c[0] && (c + b)[0] == c[0]);
        lemma_common(c.drop_first(), a, b);
    }
}

/// The way from one directory to another leads up once for each directory that they do not
/// share, and then down the names of the others; between the same directories it is `.`.
pub proof fn the_way_leads_up_and_down(
    entries: Map<TupId, EntryText>,
    c: Seq<TupId>,
    a: Seq<TupId>,
    b: Seq<TupId>,
)
    requires
        a.len() == 0 || b.len() == 0 || a[0] != b[0],
    ensures
        a.len() + b.len() == 0 ==> way(entries, c + a, c + b) == "."@,
        a.len() + b.len() > 0 ==> way(entries, c + a, c + b) == join(
            Seq::new(a.len(), |i: int| ".."@) + Seq::new(b.len(), |i: int| entries[b[i]].row.name),
            "/"@,
        ),
{
    lemma_common(c, a, b);
    assert((c + b).skip(c.len() as int) =~= b);
    assert(names_of(entries, b) =~= Seq::new(b.len(), |i: int| entries[b[i]].row.name));
    assert(Seq::new(((c + a).len() - c.len()) as nat, |i: int| ".."@) =~= Seq::new(
        a.len(),
        |i: int| ".."@,
    ));
}

proof fn lemma_reversed(a: Seq<char>, b: Seq<Seq<char>>)
    ensures
        (seq![a] + b).reverse() == b.reverse() + seq![a],
{
    assert((seq![a] + b).reverse() =~= b.reverse() + seq![a]);
}

/// The path of a node is that of its directory, a separator and its name; what is in the top
/// directory is named alone.
pub proof fn paths_are_made_of_names(entries: Map<TupId, EntryText>, row: RowText, n: nat)
    requires
        row.dir.0 > 0,
        entries.dom().contains(row.dir),
    ensures
        entries[row.dir].row.name != "."@ ==> path_of(entries, row, n + 1) == path_of(
            entries,
            entries[row.dir].row,
            n,
        ) + "/"@ + row.name,
        entries[row.dir].row.name == "."@ ==> path_of(entries, row, n) == row.name,
{
    let d = entries[row.dir].row;
    let one = seq![row.name];
    parts_are_joined_in_order(one, one, "/"@);
    if d.name == "."@ {
        assert(seq![row.name] + ups(entries, row.dir, n) =~= one);
        assert(one.reverse() =~= one);
    } else {
        let above = seq![d.name] + ups(entries, d.dir, n);
        assert(ups(entries, row.dir, n + 1) == above);
        lemma_reversed(row.name, above);
        parts_are_joined_in_order(above.reverse(), one, "/"@);
    }
}

/// The inputs of a node are what links of either kind come from, each once, those of sticky
/// links first.
pub proof fn inputs_are_what_links_come_from(t: TablesText, to: TupId, x: TupId)
    ensures
        input_ids(t, to).contains(x) <==> t.normal.contains((x, to)) || t.sticky.contains((x, to)),
        forall|i: int, j: int|
            0 <= i < j < input_ids(t, to).len() ==> (#[trigger] input_ids(t, to)[i]) != (
            #[trigger] input_ids(t, to)[j]),
        forall|i: int, j: int|
            0 <= i < j < input_ids(t, to).len() && t.sticky.contains(
                (#[trigger] input_ids(t, to)[j], to),
            ) ==> t.sticky.contains((#[trigger] input_ids(t, to)[i], to)),
{
    let s = ins(t.sticky, to);
    let n = ins(t.normal, to);
    let a = ascending(s);
    let b = ascending(n);
    let c = ids_without(b, s);
    let all = input_ids(t, to);
    ascending_lists(s);
    ascending_lists(n);
    lemma_increasing_no_duplicates(a);
    lemma_increasing_no_duplicates(b);
    lemma_ids_without(b, s);
    assert(all == a + c);
    assert(a.contains(x) <==> t.sticky.contains((x, to)));
    assert(b.contains(x) <==> t.normal.contains((x, to)));
    if all.contains(x) {
        let i = choose|i: int| 0 <= i < all.len() && all[i] == x;
        if i < a.len() {
            assert(a[i] == x);
        } else {
            assert(c[i - a.len()] == x);
            assert(c.contains(x));
        }
    }
    if a.contains(x) {
        let i = choose|i: int| 0 <= i < a.len() && a[i] == x;
        assert(all[i] == x);
    } else if b.contains(x) {
        assert(c.contains(x));
        let i = choose|i: int| 0 <= i < c.len() && c[i] == x;
        assert(all[a.len() + i] == x);
    }
    assert forall|i: int| 0 <= i < all.len() implies (i < a.len()) == t.sticky.contains(
        (#[trigger] all[i], to),
    ) by {
        if i < a.len() {
            assert(a.contains(a[i]));
        } else {
            assert(c.contains(c[i - a.len()]));
        }
    }
    assert forall|i: int, j: int| 0 <= i < j < all.len() implies (#[trigger] all[i]) != (
    #[trigger] all[j]) by {
        if j < a.len() {
            assert(a[i] != a[j]);
        } else if i >= a.len() {
            assert(c[i - a.len()] != c[j - a.len()]);
        }
    }
}

proof fn lemma_ids_without(s: Seq<TupId>, removed: Set<TupId>)
    requires
        s.no_duplicates(),
    ensures
        forall|x: TupId| #[trigger]
            ids_without(s, removed).contains(x) <==> s.contains(x) && !removed.contains(x),
        ids_without(s, removed).no_duplicates(),
    decreases s.len(),
{
    if s.len() > 0 {
        let t = s.drop_last();
        let before = ids_without(t, removed);
        let r = ids_without(s, removed);
        assert(t.no_duplicates()) by {
            assert forall|i: int, j: int| 0 <= i < t.len() && 0 <= j < t.len() && i != j implies
                t[i] != t[j] by {
                assert(s[i] != s[j]);
            }
        }
        lemma_ids_without(t, removed);
        assert forall|x: TupId| #[trigger] r.contains(x) <==> s.contains(x) && !removed.contains(
            x,
        ) by {
            if r.contains(x) {
                let i = choose|i: int| 0 <= i < r.len() && r[i] == x;
                if i < before.len() {
                    assert(before[i] == x);
                    assert(before.contains(x));
                    let k = choose|k: int| 0 <= k < t.len() && t[k] == x;
                    assert(s[k] == x);
                } else {
                    assert(s[s.len() - 1] == x);
                }
            }
            if s.contains(x) && !removed.contains(x) {
                let k = choose|k: int| 0 <= k < s.len() && s[k] == x;
                if k < t.len() {
                    assert(t[k] == x);
                    assert(before.contains(x));
                    let i = choose|i: int| 0 <= i < before.len() && before[i] == x;
                    assert(r[i] == x);
                } else {
                    assert(r[r.len() - 1] == x);
                }
            }
        }
        if !removed.contains(s.last()) {
            assert(!before.contains(s.last())) by {
                if before.contains(s.last()) {
                    let k = choose|k: int| 0 <= k < t.len() && t[k] == s.last();
                    assert(s[k] != s[s.len() - 1]);
                }
            }
            assert(r.no_duplicates()) by {
                assert forall|i: int, j: int|
                    0 <= i < r.len() && 0 <= j < r.len() && i != j implies r[i] != r[j] by {
                    if i < before.len() {
                        assert(before.contains(before[i]));
                    }
                    if j < before.len() {
                        assert(before.contains(before[j]));
                    }
                }
            }
        }
    }
}

// ------------------------------------------------ what is read

/// Rows whose identifiers and places differ are all read, and nothing else; two rows with the
/// same place are refused.
pub proof fn rows_are_read(nodes: Map<TupId, RowText>, rows: Seq<RowText>)
    requires
        forall|i: int, j: int|
            0 <= i < j < rows.len() ==> (#[trigger] rows[i]).id != (#[trigger] rows[j]).id,
        forall|i: int| 0 <= i < rows.len() ==> !nodes.dom().contains((#[trigger] rows[i]).id),
    ensures
        match put_rows(nodes, rows) {
            Some(m) => {
                &&& forall|i: int|
                    0 <= i < rows.len() ==> m.dom().contains((#[trigger] rows[i]).id)
                        && m[rows[i].id] == rows[i]
                &&& forall|x: TupId| #[trigger]
                    nodes.dom().contains(x) ==> m.dom().contains(x) && m[x] == nodes[x]
                &&& forall|x: TupId| #[trigger]
                    m.dom().contains(x) ==> nodes.dom().contains(x) || exists|i: int|
                        0 <= i < rows.len() && (#[trigger] rows[i]).id == x
                &&& forall|i: int, j: int|
                    0 <= i < j < rows.len() ==> (#[trigger] rows[i]).dir != (
                    #[trigger] rows[j]).dir || rows[i].name != rows[j].name
            },
            None => {
                ||| exists|i: int, j: int|
                    0 <= i < j < rows.len() && (#[trigger] rows[i]).dir == (
                    #[trigger] rows[j]).dir && rows[i].name == rows[j].name
                ||| exists|i: int, x: TupId|
                    0 <= i < rows.len() && #[trigger] is_named(
                        nodes,
                        (#[trigger] rows[i]).dir,
                        rows[i].name,
                        x,
                    )
            },
        },
    decreases rows.len(),
{
    if rows.len() > 0 {
        let r = rows[0];
        let rest = rows.drop_first();
        let next = nodes.insert(r.id, r);
        if is_taken(nodes, r) {
            let x = choose|x: TupId| #[trigger] is_named(nodes, r.dir, r.name, x) && x != r.id;
            assert(is_named(nodes, rows[0].dir, rows[0].name, x));
        } else {
            assert forall|i: int, j: int| 0 <= i < j < rest.len() implies (#[trigger] rest[i]).id
                != (#[trigger] rest[j]).id by {
                assert(rest[i] == rows[i + 1] && rest[j] == rows[j + 1]);
            }
            assert forall|i: int| 0 <= i < rest.len() implies !next.dom().contains(
                (#[trigger] rest[i]).id,
            ) by {
                assert(rest[i] == rows[i + 1]);
                assert(rows[0].id != rows[i + 1].id);
            }
            rows_are_read(next, rest);
            match put_rows(next, rest) {
                Some(m) => {
                    assert(next.dom().contains(r.id));
                    assert forall|i: int| 0 <= i < rows.len() implies m.dom().contains(
                        (#[trigger] rows[i]).id,
                    ) && m[rows[i].id] == rows[i] by {
                        if i > 0 {
                            assert(rest[i - 1] == rows[i]);
                        }
                    }
                    assert forall|x: TupId| #[trigger] nodes.dom().contains(x) implies
                        m.dom().contains(x) && m[x] == nodes[x] by {
                        assert(next.dom().contains(x));
                    }
                    assert forall|x: TupId| #[trigger] m.dom().contains(x) implies
                        nodes.dom().contains(x) || exists|i: int|
                        0 <= i < rows.len() && (#[trigger] rows[i]).id == x by {
                        if !next.dom().contains(x) {
                            let i = choose|i: int|
                                0 <= i < rest.len() && (#[trigger] rest[i]).id == x;
                            assert(rows[i + 1] == rest[i]);
                        } else if !nodes.dom().contains(x) {
                            assert(rows[0].id == x);
                        }
                    }
                    assert forall|i: int, j: int| 0 <= i < j < rows.len() implies (
                    #[trigger] rows[i]).dir != (#[trigger] rows[j]).dir || rows[i].name
                        != rows[j].name by {
                        assert(rest[j - 1] == rows[j]);
                        if i > 0 {
                            assert(rest[i - 1] == rows[i]);
                        } else {
                            lemma_not_named(next, rest, j - 1, r.id);
                        }
                    }
                },
                None => {
                    if exists|i: int, j: int|
                        0 <= i < j < rest.len() && (#[trigger] rest[i]).dir == (
                        #[trigger] rest[j]).dir && rest[i].name == rest[j].name {
                        let (i, j) = choose|i: int, j: int|
                            0 <= i < j < rest.len() && (#[trigger] rest[i]).dir == (
                            #[trigger] rest[j]).dir && rest[i].name == rest[j].name;
                        assert(rows[i + 1] == rest[i] && rows[j + 1] == rest[j]);
                    } else {
                        let (i, x) = choose|i: int, x: TupId|
                            0 <= i < rest.len() && #[trigger] is_named(
                                next,
                                (#[trigger] rest[i]).dir,
                                rest[i].name,
                                x,
                            );
                        assert(rows[i + 1] == rest[i]);
                        if x == r.id {
                            assert(rows[0].dir == rows[i + 1].dir);
                        } else {
                            assert(is_named(nodes, rows[i + 1].dir, rows[i + 1].name, x));
                        }
                    }
                },
            }
        }
    }
}

/// A row that could be read is not in the place of one that was there.
proof fn lemma_not_named(nodes: Map<TupId, RowText>, rows: Seq<RowText>, j: int, x: TupId)
    requires
        put_rows(nodes, rows) is Some,
        0 <= j < rows.len(),
        nodes.dom().contains(x),
        forall|i: int| 0 <= i < rows.len() ==> (#[trigger] rows[i]).id != x,
    ensures
        !(nodes[x].dir == rows[j].dir && nodes[x].name == rows[j].name),
    decreases rows.len(),
{
    let next = nodes.insert(rows[0].id, rows[0]);
    assert(rows[0].id != x);
    if j == 0 {
        if nodes[x].dir == rows[0].dir && nodes[x].name == rows[0].name {
            assert(is_named(nodes, rows[0].dir, rows[0].name, x));
        }
    } else {
        let rest = rows.drop_first();
        assert(rest[j - 1] == rows[j]);
        assert forall|i: int| 0 <= i < rest.len() implies (#[trigger] rest[i]).id != x by {
            assert(rest[i] == rows[i + 1]);
        }
        lemma_not_named(next, rest, j - 1, x);
    }
}

/// A line `name = value` of the configuration of a variant gives a name its value, each
/// without the white space around it; blank lines and comments give nothing, and the last
/// line about a name counts.
pub proof fn variant_lines_are_read(
    ls: Seq<Seq<char>>,
    name: Seq<char>,
    value: Seq<char>,
    other: Seq<char>,
)
    requires
        !name.contains('='),
        trim(name + seq!['='] + value) == name + seq!['='] + value,
        name.len() == 0 || name[0] != '#',
    ensures
        ({
            let before = config_of(ls);
            let after = config_of(ls.push(name + seq!['='] + value));
            &&& config_line(name + seq!['='] + value) == Some((trim(name), trim(value)))
            &&& after.dom().contains(trim(name)) && after[trim(name)] == trim(value)
            &&& other != trim(name) ==> {
                &&& after.dom().contains(other) == before.dom().contains(other)
                &&& after[other] == before[other]
            }
        }),
{
    let line = name + seq!['='] + value;
    assert(ls.push(line).drop_last() =~= ls);
    find_char_is_first(line, '=');
    let k = name.len() as int;
    assert(line[k] == '=');
    assert(line.contains(line[k]));
    if name.len() > 0 {
        assert(line[0] == name[0]);
    }
    match find_char(line, '=') {
        Some(j) => {
            if j < k {
                assert(name.contains(name[j]));
                assert(line[j] == name[j]);
            } else if j > k {
                assert(line[k] != '=');
            }
        },
        None => {},
    }
    assert(line.take(k) =~= name);
    assert(line.skip(k + 1) =~= value);
}

} // verus!
