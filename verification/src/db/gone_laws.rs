//! What holds of a database from which deleted files went.
use vstd::prelude::*;

use crate::db::links::nodes_in;
use crate::db::nodes::World;
use crate::db::rows::{is_named, unique_names, RowText};
use crate::db::store_laws::a_name_finds_its_node;
use crate::db::sweep::{at_or_below, below_some, files_below, steps_up};
use crate::db::sweep_laws::{only_files_go, only_removed};
use crate::db::sync::{
    is_hidden, is_missing, is_on_disk, is_rules_file, missing, missing_below, missing_rows, FsKind,
    FsNode,
};
use crate::db::sync_laws::{
    dir_known, entries_known, is_gone, is_steady, is_tree, lemma_apart, lemma_at_itself,
    lemma_below_through, lemma_child_below, lemma_not_below_child,
};
use crate::db::tables::{dot, TablesText, TupFlags};
use crate::ids::{ascending, ascending_lists};
use crate::types::{NodeType, TupId};

verus! {

/// Whether a node with a name, if there is one, is not in a set.
spec fn is_spared(t: TablesText, dir: TupId, name: Seq<char>, s: Set<TupId>) -> bool {
    t.select(dir, name) is Some ==> !s.contains(t.select(dir, name)->0)
}

/// Whether no node of the first entries on disk is in a set.
spec fn avoids(
    t: TablesText,
    dir: TupId,
    entries: Seq<FsNode>,
    n: nat,
    s: Set<TupId>,
) -> bool
    decreases entries, n,
{
    if n == 0 || n > entries.len() {
        true
    } else {
        let e = entries[n - 1];
        &&& avoids(t, dir, entries, (n - 1) as nat, s)
        &&& is_hidden(e.name@) || t.select(dir, e.name@) is None || {
            let id = t.select(dir, e.name@)->0;
            &&& !s.contains(id)
            &&& match e.kind {
                FsKind::File { .. } => true,
                FsKind::Dir { tupfile, tupfile_lua, entries: sub } => {
                    &&& tupfile is Some ==> is_spared(t, id, "Tupfile"@, s)
                    &&& tupfile_lua is Some ==> is_spared(t, id, "Tupfile.lua"@, s)
                    &&& avoids(t, id, sub@, sub@.len(), s)
                },
            }
        }
    }
}

/// What is listed as missing from a directory is missing, and all of that is listed.
proof fn lemma_missing_from(
    rows: Seq<RowText>,
    entries: Seq<FsNode>,
    tupfile: bool,
    tupfile_lua: bool,
)
    ensures
        ({
            let list = missing_rows(rows, entries, tupfile, tupfile_lua);
            &&& forall|g: TupId| #[trigger]
                list.contains(g) ==> exists|i: int|
                    0 <= i < rows.len() && (#[trigger] rows[i]).id == g && is_missing(
                        rows[i],
                        entries,
                        tupfile,
                        tupfile_lua,
                    )
            &&& forall|i: int|
                0 <= i < rows.len() && is_missing(#[trigger] rows[i], entries, tupfile, tupfile_lua)
                    ==> list.contains(rows[i].id)
        }),
    decreases rows.len(),
{
    if rows.len() > 0 {
        let b = rows.drop_last();
        let list = missing_rows(rows, entries, tupfile, tupfile_lua);
        let before = missing_rows(b, entries, tupfile, tupfile_lua);
        lemma_missing_from(b, entries, tupfile, tupfile_lua);
        let last = rows[rows.len() - 1];
        assert forall|g: TupId| #[trigger] list.contains(g) implies exists|i: int|
            0 <= i < rows.len() && (#[trigger] rows[i]).id == g && is_missing(
                rows[i],
                entries,
                tupfile,
                tupfile_lua,
            ) by {
            if before.contains(g) {
                let i = choose|i: int|
                    0 <= i < b.len() && (#[trigger] b[i]).id == g && is_missing(
                        b[i],
                        entries,
                        tupfile,
                        tupfile_lua,
                    );
                assert(rows[i] == b[i]);
            } else {
                let k = choose|k: int| 0 <= k < list.len() && list[k] == g;
                assert(k == before.len()) by {
                    if k < before.len() {
                        assert(before[k] == g);
                    }
                }
                assert(last.id == g);
            }
        }
        assert forall|i: int|
            0 <= i < rows.len() && is_missing(
                #[trigger] rows[i],
                entries,
                tupfile,
                tupfile_lua,
            ) implies list.contains(rows[i].id) by {
            if i < b.len() {
                assert(b[i] == rows[i]);
                assert(before.contains(b[i].id));
                let k = choose|k: int| 0 <= k < before.len() && before[k] == b[i].id;
                assert(list[k] == rows[i].id);
            } else {
                assert(list[before.len() as int] == rows[i].id);
            }
        }
    }
}

/// The same, for the nodes of a directory.
proof fn lemma_missing_here(
    t: TablesText,
    dir: TupId,
    entries: Seq<FsNode>,
    tupfile: bool,
    tupfile_lua: bool,
)
    requires
        unique_names(t.nodes),
    ensures
        ({
            let list = missing_rows(t.rows_in(dir), entries, tupfile, tupfile_lua);
            &&& forall|g: TupId| #[trigger]
                list.contains(g) ==> t.nodes.dom().contains(g) && t.nodes[g].dir == dir
                    && is_missing(t.nodes[g], entries, tupfile, tupfile_lua)
            &&& forall|x: TupId| #[trigger]
                t.nodes.dom().contains(x) && t.nodes[x].dir == dir && is_missing(
                    t.nodes[x],
                    entries,
                    tupfile,
                    tupfile_lua,
                ) ==> list.contains(x)
        }),
{
    let rows = t.rows_in(dir);
    let ids = ascending(nodes_in(t.nodes, dir));
    let list = missing_rows(rows, entries, tupfile, tupfile_lua);
    ascending_lists(nodes_in(t.nodes, dir));
    lemma_missing_from(rows, entries, tupfile, tupfile_lua);
    assert forall|g: TupId| #[trigger] list.contains(g) implies t.nodes.dom().contains(g)
        && t.nodes[g].dir == dir && is_missing(t.nodes[g], entries, tupfile, tupfile_lua) by {
        let i = choose|i: int|
            0 <= i < rows.len() && (#[trigger] rows[i]).id == g && is_missing(
                rows[i],
                entries,
                tupfile,
                tupfile_lua,
            );
        assert(ids.contains(ids[i]));
        assert(t.nodes.dom().contains(ids[i]));
    }
    assert forall|x: TupId| #[trigger]
        t.nodes.dom().contains(x) && t.nodes[x].dir == dir && is_missing(
            t.nodes[x],
            entries,
            tupfile,
            tupfile_lua,
        ) implies list.contains(x) by {
        assert(nodes_in(t.nodes, dir).contains(x));
        assert(ids.contains(x));
        let i = choose|i: int| 0 <= i < ids.len() && ids[i] == x;
        assert(rows[i] == t.nodes[x]);
        assert(is_missing(rows[i], entries, tupfile, tupfile_lua));
    }
}

/// Whether a node is below an entry among the first ones.
spec fn is_below_entry(
    t: TablesText,
    dir: TupId,
    entries: Seq<FsNode>,
    n: nat,
    g: TupId,
) -> bool {
    exists|j: int, c: TupId|
        0 <= j < n && !is_hidden((#[trigger] entries[j]).name@) && #[trigger] is_named(
            t.nodes,
            dir,
            entries[j].name@,
            c,
        ) && t.nodes.dom().contains(g) && at_or_below(t.nodes, t.nodes[g].dir, c)
}

/// What is missing below the entries of a directory is below one of them.
proof fn lemma_missing_below(t: TablesText, dir: TupId, entries: Seq<FsNode>, n: nat, g: TupId)
    requires
        unique_names(t.nodes),
        n <= entries.len(),
        missing_below(t, dir, entries, n).contains(g),
    ensures
        is_below_entry(t, dir, entries, n, g),
    decreases entries, n,
{
    if n > 0 {
        let before = missing_below(t, dir, entries, (n - 1) as nat);
        let e = entries[n - 1];
        if before.contains(g) {
            lemma_missing_below(t, dir, entries, (n - 1) as nat, g);
            let (j, c) = choose|j: int, c: TupId|
                0 <= j < n - 1 && !is_hidden((#[trigger] entries[j]).name@) && #[trigger] is_named(
                    t.nodes,
                    dir,
                    entries[j].name@,
                    c,
                ) && t.nodes.dom().contains(g) && at_or_below(t.nodes, t.nodes[g].dir, c);
            assert(is_named(t.nodes, dir, entries[j].name@, c));
        } else {
            match e.kind {
                FsKind::File { .. } => {},
                FsKind::Dir { tupfile, tupfile_lua, entries: sub } => {
                    let id = t.select(dir, e.name@)->0;
                    let list = missing(t, id, sub@, tupfile is Some, tupfile_lua is Some);
                    let whole = before + list;
                    let k = choose|k: int| 0 <= k < whole.len() && whole[k] == g;
                    assert(list[k - before.len()] == g) by {
                        if k < before.len() {
                            assert(before[k] == g);
                        }
                    }
                    assert(decreases_to!(entries => entries[n - 1]));
                    lemma_missing(t, id, sub@, tupfile is Some, tupfile_lua is Some, g);
                    assert(is_named(t.nodes, dir, entries[n - 1].name@, id));
                },
            }
        }
    }
}

/// What is missing from a directory is below it.
proof fn lemma_missing(
    t: TablesText,
    dir: TupId,
    entries: Seq<FsNode>,
    tupfile: bool,
    tupfile_lua: bool,
    g: TupId,
)
    requires
        unique_names(t.nodes),
        missing(t, dir, entries, tupfile, tupfile_lua).contains(g),
    ensures
        t.nodes.dom().contains(g),
        at_or_below(t.nodes, t.nodes[g].dir, dir),
    decreases entries, entries.len() + 1,
{
    let a = missing_below(t, dir, entries, entries.len());
    let b = missing_rows(t.rows_in(dir), entries, tupfile, tupfile_lua);
    let whole = a + b;
    let k = choose|k: int| 0 <= k < whole.len() && whole[k] == g;
    lemma_at_itself(t.nodes, dir);
    if k < a.len() {
        assert(a[k] == g);
        lemma_missing_below(t, dir, entries, entries.len(), g);
        let (j, c) = choose|j: int, c: TupId|
            0 <= j < entries.len() && !is_hidden((#[trigger] entries[j]).name@)
                && #[trigger] is_named(t.nodes, dir, entries[j].name@, c) && t.nodes.dom().contains(
                g,
            ) && at_or_below(t.nodes, t.nodes[g].dir, c);
        lemma_child_below(t.nodes, c, dir);
        lemma_below_through(t.nodes, t.nodes[g].dir, c, dir);
    } else {
        assert(b[k - a.len()] == g);
        assert(b.contains(g));
        lemma_missing_here(t, dir, entries, tupfile, tupfile_lua);
    }
}

/// Whether what one set has more than another is not below a directory.
spec fn more_elsewhere(t: TablesText, dir: TupId, s: Set<TupId>, more: Set<TupId>) -> bool {
    forall|g: TupId| #[trigger]
        more.contains(g) && !s.contains(g) ==> !(t.nodes.dom().contains(g) && at_or_below(
            t.nodes,
            t.nodes[g].dir,
            dir,
        ))
}

proof fn lemma_more_elsewhere_child(
    t: TablesText,
    dir: TupId,
    id: TupId,
    s: Set<TupId>,
    more: Set<TupId>,
)
    requires
        more_elsewhere(t, dir, s, more),
        t.nodes.dom().contains(id),
        t.nodes[id].dir == dir,
    ensures
        more_elsewhere(t, id, s, more),
{
    lemma_at_itself(t.nodes, dir);
    lemma_child_below(t.nodes, id, dir);
    assert forall|g: TupId| #[trigger] more.contains(g) && !s.contains(g) implies !(
    t.nodes.dom().contains(g) && at_or_below(t.nodes, t.nodes[g].dir, id)) by {
        if t.nodes.dom().contains(g) && at_or_below(t.nodes, t.nodes[g].dir, id) {
            lemma_below_through(t.nodes, t.nodes[g].dir, id, dir);
        }
    }
}

proof fn lemma_spared_more(
    t: TablesText,
    dir: TupId,
    name: Seq<char>,
    s: Set<TupId>,
    more: Set<TupId>,
)
    requires
        is_spared(t, dir, name, s),
        more_elsewhere(t, dir, s, more),
    ensures
        is_spared(t, dir, name, more),
{
    if t.select(dir, name) is Some {
        let z = t.select(dir, name)->0;
        assert(is_named(t.nodes, dir, name, z));
        lemma_at_itself(t.nodes, dir);
    }
}

proof fn lemma_avoids_more(
    t: TablesText,
    dir: TupId,
    entries: Seq<FsNode>,
    n: nat,
    s: Set<TupId>,
    more: Set<TupId>,
)
    requires
        n <= entries.len(),
        avoids(t, dir, entries, n, s),
        more_elsewhere(t, dir, s, more),
    ensures
        avoids(t, dir, entries, n, more),
    decreases entries, n,
{
    if n > 0 {
        lemma_avoids_more(t, dir, entries, (n - 1) as nat, s, more);
        let e = entries[n - 1];
        if !is_hidden(e.name@) && t.select(dir, e.name@) is Some {
            let id = t.select(dir, e.name@)->0;
            assert(is_named(t.nodes, dir, e.name@, id));
            lemma_at_itself(t.nodes, dir);
            match e.kind {
                FsKind::File { .. } => {},
                FsKind::Dir { tupfile, tupfile_lua, entries: sub } => {
                    lemma_more_elsewhere_child(t, dir, id, s, more);
                    if tupfile is Some {
                        lemma_spared_more(t, id, "Tupfile"@, s, more);
                    }
                    if tupfile_lua is Some {
                        lemma_spared_more(t, id, "Tupfile.lua"@, s, more);
                    }
                    assert(decreases_to!(entries => entries[n - 1]));
                    lemma_avoids_more(t, id, sub@, sub@.len(), s, more);
                },
            }
        }
    }
}

/// A node of a directory that is on disk, or is a file with rules that was found,
/// is not missing.
proof fn lemma_not_missing(
    t: TablesText,
    dir: TupId,
    entries: Seq<FsNode>,
    tupfile: bool,
    tupfile_lua: bool,
    name: Seq<char>,
    depth: nat,
)
    requires
        is_tree(t.nodes),
        steps_up(t.nodes, dir, dot(), depth),
        is_on_disk(entries, name) || is_rules_file(name, tupfile, tupfile_lua),
    ensures
        is_spared(t, dir, name, missing(t, dir, entries, tupfile, tupfile_lua).to_set()),
{
    if t.select(dir, name) is Some {
        let z = t.select(dir, name)->0;
        assert(is_named(t.nodes, dir, name, z));
        let a = missing_below(t, dir, entries, entries.len());
        let b = missing_rows(t.rows_in(dir), entries, tupfile, tupfile_lua);
        lemma_missing_here(t, dir, entries, tupfile, tupfile_lua);
        if (a + b).contains(z) {
            let k = choose|k: int| 0 <= k < (a + b).len() && (a + b)[k] == z;
            if k < a.len() {
                assert(a[k] == z);
                lemma_missing_below(t, dir, entries, entries.len(), z);
                let (j, c) = choose|j: int, c: TupId|
                    0 <= j < entries.len() && !is_hidden((#[trigger] entries[j]).name@)
                        && #[trigger] is_named(t.nodes, dir, entries[j].name@, c)
                        && t.nodes.dom().contains(z) && at_or_below(t.nodes, t.nodes[z].dir, c);
                lemma_not_below_child(t.nodes, dir, c, depth);
            } else {
                assert(b[k - a.len()] == z);
                assert(b.contains(z));
            }
        }
    }
}

/// Entries that are not hidden have names of their own.
proof fn lemma_distinct(entries: Seq<FsNode>, n: nat, a: int, b: int)
    requires
        n <= entries.len(),
        is_steady(entries, n),
        0 <= a < n,
        0 <= b < n,
        a != b,
        !is_hidden(entries[a].name@),
        !is_hidden(entries[b].name@),
    ensures
        entries[a].name@ != entries[b].name@,
    decreases n,
{
    if a < n - 1 && b < n - 1 {
        lemma_distinct(entries, (n - 1) as nat, a, b);
    }
}

/// Nothing is below two entries of a directory.
proof fn lemma_one_entry(
    t: TablesText,
    dir: TupId,
    entries: Seq<FsNode>,
    a: int,
    b: int,
    x: TupId,
    y: TupId,
    z: TupId,
    depth: nat,
)
    requires
        is_tree(t.nodes),
        steps_up(t.nodes, dir, dot(), depth),
        is_steady(entries, entries.len()),
        0 <= a < entries.len(),
        0 <= b < entries.len(),
        !is_hidden(entries[a].name@),
        !is_hidden(entries[b].name@),
        is_named(t.nodes, dir, entries[a].name@, x),
        is_named(t.nodes, dir, entries[b].name@, y),
        at_or_below(t.nodes, z, x),
        at_or_below(t.nodes, z, y),
    ensures
        a == b,
{
    assert(steps_up(t.nodes, x, dot(), depth + 1));
    assert(steps_up(t.nodes, y, dot(), depth + 1));
    lemma_apart(t.nodes, z, x, y, depth + 1);
    if a != b {
        lemma_distinct(entries, entries.len(), a, b);
    }
}

/// What is missing below an entry was listed for it.
proof fn lemma_listed_for(
    t: TablesText,
    dir: TupId,
    entries: Seq<FsNode>,
    m: nat,
    i: int,
    id: TupId,
    g: TupId,
    depth: nat,
)
    requires
        is_tree(t.nodes),
        steps_up(t.nodes, dir, dot(), depth),
        is_steady(entries, entries.len()),
        m <= entries.len(),
        0 <= i < entries.len(),
        !is_hidden(entries[i].name@),
        is_named(t.nodes, dir, entries[i].name@, id),
        missing_below(t, dir, entries, m).contains(g),
        at_or_below(t.nodes, t.nodes[g].dir, id),
    ensures
        match entries[i].kind {
            FsKind::File { .. } => false,
            FsKind::Dir { tupfile, tupfile_lua, entries: sub } => missing(
                t,
                id,
                sub@,
                tupfile is Some,
                tupfile_lua is Some,
            ).contains(g),
        },
    decreases m,
{
    if m > 0 {
        let before = missing_below(t, dir, entries, (m - 1) as nat);
        if before.contains(g) {
            lemma_listed_for(t, dir, entries, (m - 1) as nat, i, id, g, depth);
        } else {
            let e = entries[m - 1];
            match e.kind {
                FsKind::File { .. } => {},
                FsKind::Dir { tupfile, tupfile_lua, entries: sub } => {
                    let c = t.select(dir, e.name@)->0;
                    let list = missing(t, c, sub@, tupfile is Some, tupfile_lua is Some);
                    let whole = before + list;
                    let k = choose|k: int| 0 <= k < whole.len() && whole[k] == g;
                    assert(list[k - before.len()] == g) by {
                        if k < before.len() {
                            assert(before[k] == g);
                        }
                    }
                    assert(list.contains(g));
                    lemma_missing(t, c, sub@, tupfile is Some, tupfile_lua is Some, g);
                    assert(is_named(t.nodes, dir, e.name@, c));
                    lemma_one_entry(
                        t,
                        dir,
                        entries,
                        i,
                        m - 1,
                        id,
                        c,
                        t.nodes[g].dir,
                        depth,
                    );
                    a_name_finds_its_node(t.nodes, dir, e.name@, id);
                },
            }
        }
    }
}

/// No node on disk is missing.
proof fn lemma_avoids_missing(
    t: TablesText,
    dir: TupId,
    entries: Seq<FsNode>,
    n: nat,
    tupfile: bool,
    tupfile_lua: bool,
    depth: nat,
)
    requires
        is_tree(t.nodes),
        steps_up(t.nodes, dir, dot(), depth),
        is_steady(entries, entries.len()),
        is_steady(entries, n),
        n <= entries.len(),
    ensures
        avoids(t, dir, entries, n, missing(t, dir, entries, tupfile, tupfile_lua).to_set()),
    decreases entries, n,
{
    if n > 0 {
        let all = missing(t, dir, entries, tupfile, tupfile_lua);
        let gone = all.to_set();
        lemma_avoids_missing(t, dir, entries, (n - 1) as nat, tupfile, tupfile_lua, depth);
        let e = entries[n - 1];
        if !is_hidden(e.name@) && t.select(dir, e.name@) is Some {
            let id = t.select(dir, e.name@)->0;
            assert(is_named(t.nodes, dir, e.name@, id));
            assert(is_on_disk(entries, e.name@)) by {
                assert(entries[n - 1].name@ == e.name@);
            }
            lemma_not_missing(t, dir, entries, tupfile, tupfile_lua, e.name@, depth);
            match e.kind {
                FsKind::File { .. } => {},
                FsKind::Dir { tupfile: own, tupfile_lua: own_lua, entries: sub } => {
                    let some = own is Some;
                    let some_lua = own_lua is Some;
                    let inner = missing(t, id, sub@, some, some_lua).to_set();
                    assert(steps_up(t.nodes, id, dot(), depth + 1));
                    assert(decreases_to!(entries => entries[n - 1]));
                    lemma_avoids_missing(t, id, sub@, sub@.len(), some, some_lua, depth + 1);
                    assert(more_elsewhere(t, id, inner, gone)) by {
                        assert forall|g: TupId| #[trigger]
                            gone.contains(g) && !inner.contains(g) implies !(
                        t.nodes.dom().contains(g) && at_or_below(t.nodes, t.nodes[g].dir, id)) by {
                            lemma_from_where(
                                t,
                                dir,
                                entries,
                                tupfile,
                                tupfile_lua,
                                n - 1,
                                id,
                                g,
                                depth,
                            );
                        }
                    }
                    lemma_avoids_more(t, id, sub@, sub@.len(), inner, gone);
                    if some {
                        lemma_not_missing(t, id, sub@, some, some_lua, "Tupfile"@, depth + 1);
                        lemma_spared_more(t, id, "Tupfile"@, inner, gone);
                    }
                    if some_lua {
                        lemma_not_missing(t, id, sub@, some, some_lua, "Tupfile.lua"@, depth + 1);
                        lemma_spared_more(t, id, "Tupfile.lua"@, inner, gone);
                    }
                },
            }
        }
    }
}

/// What is missing from a directory and below an entry was listed for the entry.
proof fn lemma_from_where(
    t: TablesText,
    dir: TupId,
    entries: Seq<FsNode>,
    tupfile: bool,
    tupfile_lua: bool,
    i: int,
    id: TupId,
    g: TupId,
    depth: nat,
)
    requires
        is_tree(t.nodes),
        steps_up(t.nodes, dir, dot(), depth),
        is_steady(entries, entries.len()),
        0 <= i < entries.len(),
        !is_hidden(entries[i].name@),
        is_named(t.nodes, dir, entries[i].name@, id),
        missing(t, dir, entries, tupfile, tupfile_lua).contains(g),
    ensures
        t.nodes.dom().contains(g) && at_or_below(t.nodes, t.nodes[g].dir, id)
            ==> match entries[i].kind {
            FsKind::File { .. } => false,
            FsKind::Dir { tupfile: own, tupfile_lua: own_lua, entries: sub } => missing(
                t,
                id,
                sub@,
                own is Some,
                own_lua is Some,
            ).contains(g),
        },
{
    let a = missing_below(t, dir, entries, entries.len());
    let b = missing_rows(t.rows_in(dir), entries, tupfile, tupfile_lua);
    let k = choose|k: int| 0 <= k < (a + b).len() && (a + b)[k] == g;
    if t.nodes.dom().contains(g) && at_or_below(t.nodes, t.nodes[g].dir, id) {
        if k < a.len() {
            assert(a[k] == g);
            lemma_listed_for(t, dir, entries, entries.len(), i, id, g, depth);
        } else {
            assert(b[k - a.len()] == g);
            assert(b.contains(g));
            lemma_missing_here(t, dir, entries, tupfile, tupfile_lua);
            lemma_not_below_child(t.nodes, dir, id, depth);
        }
    }
}

// ------------------------------------------------ what stays when files go

/// What is in a directory, and not in a list, is below the list only if the
/// directory is.
proof fn lemma_child_clear(t: TablesText, x: TupId, gone: Seq<TupId>)
    requires
        t.nodes.dom().contains(x),
        !gone.contains(x),
        !below_some(t.nodes, t.nodes[x].dir, gone),
    ensures
        !below_some(t.nodes, x, gone),
{
    if below_some(t.nodes, x, gone) {
        let top = choose|top: TupId| gone.contains(top) && #[trigger] at_or_below(t.nodes, x, top);
        let k = choose|k: nat| steps_up(t.nodes, x, top, k);
        assert(k > 0);
        assert(steps_up(t.nodes, t.nodes[x].dir, top, (k - 1) as nat));
        assert(at_or_below(t.nodes, t.nodes[x].dir, top));
    }
}

/// A file that is on disk is not among the files that go.
proof fn lemma_spared_file(t: TablesText, dir: TupId, name: Seq<char>, gone: Seq<TupId>)
    requires
        unique_names(t.nodes),
        is_spared(t, dir, name, gone.to_set()),
        !below_some(t.nodes, dir, gone),
    ensures
        is_spared(t, dir, name, files_below(t.nodes, gone)),
{
    if t.select(dir, name) is Some {
        let z = t.select(dir, name)->0;
        assert(is_named(t.nodes, dir, name, z));
        assert(!gone.to_set().contains(z));
        lemma_child_clear(t, z, gone);
    }
}

/// Where no node on disk is in a list, none is among the files that go with it.
proof fn lemma_avoids_files(
    t: TablesText,
    dir: TupId,
    entries: Seq<FsNode>,
    n: nat,
    gone: Seq<TupId>,
)
    requires
        unique_names(t.nodes),
        n <= entries.len(),
        avoids(t, dir, entries, n, gone.to_set()),
        !below_some(t.nodes, dir, gone),
    ensures
        avoids(t, dir, entries, n, files_below(t.nodes, gone)),
    decreases entries, n,
{
    if n > 0 {
        lemma_avoids_files(t, dir, entries, (n - 1) as nat, gone);
        let e = entries[n - 1];
        if !is_hidden(e.name@) && t.select(dir, e.name@) is Some {
            let id = t.select(dir, e.name@)->0;
            assert(is_named(t.nodes, dir, e.name@, id));
            assert(!gone.to_set().contains(id));
            lemma_child_clear(t, id, gone);
            match e.kind {
                FsKind::File { .. } => {},
                FsKind::Dir { tupfile, tupfile_lua, entries: sub } => {
                    if tupfile is Some {
                        lemma_spared_file(t, id, "Tupfile"@, gone);
                    }
                    if tupfile_lua is Some {
                        lemma_spared_file(t, id, "Tupfile.lua"@, gone);
                    }
                    assert(decreases_to!(entries => entries[n - 1]));
                    lemma_avoids_files(t, id, sub@, sub@.len(), gone);
                },
            }
        }
    }
}

/// A name finds the node that it found, where that stayed.
proof fn lemma_still_found(
    t: TablesText,
    v: TablesText,
    gone: Set<TupId>,
    dir: TupId,
    name: Seq<char>,
)
    requires
        unique_names(v.nodes),
        only_removed(t, v, gone),
        t.select(dir, name) is Some,
        is_spared(t, dir, name, gone),
    ensures
        v.select(dir, name) == t.select(dir, name),
        v.nodes.dom().contains(t.select(dir, name)->0),
        v.nodes[t.select(dir, name)->0] == t.nodes[t.select(dir, name)->0],
{
    let id = t.select(dir, name)->0;
    assert(is_named(t.nodes, dir, name, id));
    assert(v.nodes.dom().contains(id));
    a_name_finds_its_node(v.nodes, dir, name, id);
}

proof fn lemma_entries_stay_known(
    t: TablesText,
    v: TablesText,
    gone: Set<TupId>,
    dir: TupId,
    entries: Seq<FsNode>,
    n: nat,
    none_gone: bool,
)
    requires
        unique_names(t.nodes),
        unique_names(v.nodes),
        only_removed(t, v, gone),
        n <= entries.len(),
        avoids(t, dir, entries, n, gone),
        entries_known(t, dir, entries, n, none_gone),
    ensures
        entries_known(v, dir, entries, n, none_gone),
    decreases entries, n,
{
    if n > 0 {
        lemma_entries_stay_known(t, v, gone, dir, entries, (n - 1) as nat, none_gone);
        let e = entries[n - 1];
        if !is_hidden(e.name@) {
            lemma_still_found(t, v, gone, dir, e.name@);
            let id = t.select(dir, e.name@)->0;
            assert(is_named(t.nodes, dir, e.name@, id));
            let row = t.nodes[id];
            match e.kind {
                FsKind::File { .. } => {},
                FsKind::Dir { tupfile, tupfile_lua, entries: sub } => {
                    if row.node_type == NodeType::Dir || row.node_type == NodeType::GeneratedDir {
                        if tupfile is Some {
                            lemma_still_found(t, v, gone, id, "Tupfile"@);
                        }
                        if tupfile_lua is Some {
                            lemma_still_found(t, v, gone, id, "Tupfile.lua"@);
                        }
                        assert(decreases_to!(entries => entries[n - 1]));
                        lemma_stays_known(t, v, gone, id, sub@, none_gone);
                    }
                },
            }
        }
    }
}

/// A directory is known as it is on disk when files go that are not on disk.
proof fn lemma_stays_known(
    t: TablesText,
    v: TablesText,
    gone: Set<TupId>,
    dir: TupId,
    entries: Seq<FsNode>,
    none_gone: bool,
)
    requires
        unique_names(t.nodes),
        unique_names(v.nodes),
        only_removed(t, v, gone),
        avoids(t, dir, entries, entries.len(), gone),
        dir_known(t, dir, entries, none_gone),
    ensures
        dir_known(v, dir, entries, none_gone),
    decreases entries, entries.len() + 1,
{
    lemma_entries_stay_known(t, v, gone, dir, entries, entries.len(), none_gone);
    assert forall|id: TupId| #[trigger]
        v.nodes.dom().contains(id) && v.nodes[id].dir == dir && is_gone(
            v.nodes[id],
            entries,
        ) implies !none_gone && (v.flags)(TupFlags::Modify).contains(id) by {
        assert(!gone.contains(id));
        assert(t.nodes.dom().contains(id));
        assert((t.flags)(TupFlags::Modify).contains(id));
    }
}

/// What is missing below entries after files went was missing before.
proof fn lemma_missing_below_before(
    t: TablesText,
    v: TablesText,
    gone: Set<TupId>,
    dir: TupId,
    entries: Seq<FsNode>,
    n: nat,
    g: TupId,
)
    requires
        unique_names(t.nodes),
        unique_names(v.nodes),
        only_removed(t, v, gone),
        n <= entries.len(),
        missing_below(v, dir, entries, n).contains(g),
    ensures
        missing_below(t, dir, entries, n).contains(g),
    decreases entries, n,
{
    if n > 0 {
        let after = missing_below(v, dir, entries, (n - 1) as nat);
        let before = missing_below(t, dir, entries, (n - 1) as nat);
        let whole = missing_below(t, dir, entries, n);
        if after.contains(g) {
            lemma_missing_below_before(t, v, gone, dir, entries, (n - 1) as nat, g);
            let k = choose|k: int| 0 <= k < before.len() && before[k] == g;
            assert(whole[k] == g);
        } else {
            let e = entries[n - 1];
            match e.kind {
                FsKind::File { .. } => {},
                FsKind::Dir { tupfile, tupfile_lua, entries: sub } => {
                    let id = v.select(dir, e.name@)->0;
                    assert(is_named(v.nodes, dir, e.name@, id));
                    assert(v.nodes.dom().contains(id));
                    assert(!gone.contains(id));
                    assert(is_named(t.nodes, dir, e.name@, id));
                    a_name_finds_its_node(t.nodes, dir, e.name@, id);
                    let some = tupfile is Some;
                    let some_lua = tupfile_lua is Some;
                    let list = missing(v, id, sub@, some, some_lua);
                    let k = choose|k: int| 0 <= k < (after + list).len() && (after + list)[k] == g;
                    assert(list[k - after.len()] == g) by {
                        if k < after.len() {
                            assert(after[k] == g);
                        }
                    }
                    assert(list.contains(g));
                    assert(decreases_to!(entries => entries[n - 1]));
                    lemma_missing_before(t, v, gone, id, sub@, some, some_lua, g);
                    let had = missing(t, id, sub@, some, some_lua);
                    let j = choose|j: int| 0 <= j < had.len() && had[j] == g;
                    assert(whole[before.len() + j] == g);
                },
            }
        }
    }
}

/// What is missing after files went was missing before.
proof fn lemma_missing_before(
    t: TablesText,
    v: TablesText,
    gone: Set<TupId>,
    dir: TupId,
    entries: Seq<FsNode>,
    tupfile: bool,
    tupfile_lua: bool,
    g: TupId,
)
    requires
        unique_names(t.nodes),
        unique_names(v.nodes),
        only_removed(t, v, gone),
        missing(v, dir, entries, tupfile, tupfile_lua).contains(g),
    ensures
        missing(t, dir, entries, tupfile, tupfile_lua).contains(g),
    decreases entries, entries.len() + 1,
{
    let a = missing_below(v, dir, entries, entries.len());
    let b = missing_rows(v.rows_in(dir), entries, tupfile, tupfile_lua);
    let c = missing_below(t, dir, entries, entries.len());
    let d = missing_rows(t.rows_in(dir), entries, tupfile, tupfile_lua);
    let k = choose|k: int| 0 <= k < (a + b).len() && (a + b)[k] == g;
    if k < a.len() {
        assert(a[k] == g);
        lemma_missing_below_before(t, v, gone, dir, entries, entries.len(), g);
        let j = choose|j: int| 0 <= j < c.len() && c[j] == g;
        assert((c + d)[j] == g);
    } else {
        assert(b[k - a.len()] == g);
        assert(b.contains(g));
        lemma_missing_here(v, dir, entries, tupfile, tupfile_lua);
        lemma_missing_here(t, dir, entries, tupfile, tupfile_lua);
        assert(!gone.contains(g));
        assert(t.nodes.dom().contains(g));
        assert(d.contains(g));
        let j = choose|j: int| 0 <= j < d.len() && d[j] == g;
        assert((c + d)[c.len() + j] == g);
    }
}

/// Steps up that are there after files went were there before.
proof fn lemma_steps_before(
    t: TablesText,
    v: TablesText,
    gone: Set<TupId>,
    x: TupId,
    to: TupId,
    k: nat,
)
    requires
        only_removed(t, v, gone),
        steps_up(v.nodes, x, to, k),
    ensures
        steps_up(t.nodes, x, to, k),
    decreases k,
{
    if k > 0 {
        assert(v.nodes.dom().contains(x));
        assert(t.nodes.dom().contains(x) && v.nodes[x].dir == t.nodes[x].dir) by {
            if !gone.contains(x) {
                assert(v.nodes.dom().contains(x) <==> t.nodes.dom().contains(x));
            }
        }
        lemma_steps_before(t, v, gone, v.nodes[x].dir, to, (k - 1) as nat);
    }
}

/// The top directory is not below anything that is missing.
pub proof fn top_is_not_missing(t: TablesText, entries: Seq<FsNode>)
    requires
        is_tree(t.nodes),
    ensures
        !below_some(t.nodes, dot(), missing(t, dot(), entries, false, false)),
{
    let gone = missing(t, dot(), entries, false, false);
    if below_some(t.nodes, dot(), gone) {
        let top = choose|top: TupId|
            gone.contains(top) && #[trigger] at_or_below(t.nodes, dot(), top);
        lemma_missing(t, dot(), entries, false, false, top);
        let k = choose|k: nat| steps_up(t.nodes, dot(), top, k);
        let j = choose|j: nat| steps_up(t.nodes, t.nodes[top].dir, dot(), j);
        if k == 0 {
            assert(j == 0 || t.nodes.dom().contains(TupId(0)));
        } else {
            assert(steps_up(t.nodes, TupId(0), top, (k - 1) as nat));
            assert(k - 1 == 0 || t.nodes.dom().contains(TupId(0)));
        }
    }
}

/// When the files that are not on disk went from a tree that is known, it is still
/// a tree, and known, and no file is missing from it.
pub proof fn no_file_is_missing(w: World, entries: Seq<FsNode>, none_gone: bool)
    requires
        is_tree(w.tables.nodes),
        is_steady(entries, entries.len()),
        dir_known(w.tables, dot(), entries, none_gone),
    ensures
        ({
            let gone = missing(w.tables, dot(), entries, false, false);
            let v = w.sweep(gone).tables;
            &&& is_tree(v.nodes)
            &&& dir_known(v, dot(), entries, none_gone)
            &&& files_below(v.nodes, missing(v, dot(), entries, false, false)) == Set::<
                TupId,
            >::empty()
            &&& w.cache.entries.dom().contains(dot()) ==> w.sweep(
                gone,
            ).cache.entries.dom().contains(dot())
        }),
{
    let t = w.tables;
    let gone = missing(t, dot(), entries, false, false);
    let files = files_below(t.nodes, gone);
    let v = w.sweep(gone).tables;
    only_files_go(w, gone);
    assert(steps_up(t.nodes, dot(), dot(), 0));
    lemma_avoids_missing(t, dot(), entries, entries.len(), false, false, 0);
    top_is_not_missing(t, entries);
    lemma_avoids_files(t, dot(), entries, entries.len(), gone);
    lemma_stays_known(t, v, files, dot(), entries, none_gone);
    assert(!files.contains(dot()));
    assert(v.nodes.dom().contains(dot()));
    assert(!v.nodes.dom().contains(TupId(0))) by {
        if v.nodes.dom().contains(TupId(0)) {
            assert(files.contains(TupId(0)) || !files.contains(TupId(0)));
        }
    }
    let left = files_below(v.nodes, missing(v, dot(), entries, false, false));
    assert forall|x: TupId| !left.contains(x) by {
        if left.contains(x) {
            let list = missing(v, dot(), entries, false, false);
            assert(v.nodes.dom().contains(x));
            assert(!files.contains(x));
            assert(t.nodes.dom().contains(x) && t.nodes[x] == v.nodes[x]);
            let top = choose|top: TupId|
                list.contains(top) && #[trigger] at_or_below(v.nodes, x, top);
            let k = choose|k: nat| steps_up(v.nodes, x, top, k);
            lemma_steps_before(t, v, files, x, top, k);
            lemma_missing_before(t, v, files, dot(), entries, false, false, top);
            assert(at_or_below(t.nodes, x, top));
            assert(below_some(t.nodes, x, gone));
            assert(files.contains(x));
        }
    }
    assert(left =~= Set::<TupId>::empty());
}

/// To remove the files that are missing changes nothing where none is.
pub proof fn nothing_to_remove(w: World, tops: Seq<TupId>)
    requires
        files_below(w.tables.nodes, tops) == Set::<TupId>::empty(),
    ensures
        w.sweep(tops) == w,
{
    let ids = ascending(Set::<TupId>::empty());
    ascending_lists(Set::<TupId>::empty());
    if ids.len() > 0 {
        assert(ids.contains(ids[0]));
    }
}

/// A file or a directory in the top directory that is not on disk is missing.
pub proof fn what_is_gone_is_missing(t: TablesText, entries: Seq<FsNode>, x: TupId)
    requires
        unique_names(t.nodes),
        t.nodes.dom().contains(x),
        t.nodes[x].dir == dot(),
        is_gone(t.nodes[x], entries),
    ensures
        missing(t, dot(), entries, false, false).contains(x),
{
    let a = missing_below(t, dot(), entries, entries.len());
    let b = missing_rows(t.rows_in(dot()), entries, false, false);
    lemma_missing_here(t, dot(), entries, false, false);
    assert(is_missing(t.nodes[x], entries, false, false));
    let j = choose|j: int| 0 <= j < b.len() && b[j] == x;
    assert((a + b)[a.len() + j] == x);
}

} // verus!
