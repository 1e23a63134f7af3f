//! What holds of synchronizations with the disk.
use vstd::prelude::*;

use crate::db::entry::{fresh, CacheText};
use crate::db::errors::DbErrorText;
use crate::db::gone_laws::{
    no_file_is_missing, nothing_to_remove, top_is_not_missing, what_is_gone_is_missing,
};
use crate::db::laws::{a_new_database_is_sound, a_new_node_is_found, lemma_edited, marks_are_set_once};
use crate::db::links::nodes_in;
use crate::db::nodes::World;
use crate::db::rows::{is_greatest, is_named, unique_names, RowText};
use crate::db::store_laws::{a_name_finds_its_node, new_identifier_is_new};
use crate::db::sweep::{at_or_below, below_some, files_below, steps_up};
use crate::db::sweep_laws::{
    directories_of_deleted_files_are_parsed, only_files_go, users_of_deleted_files_run,
};
use crate::db::sync::{
    is_hidden, is_on_disk, is_tupfile, is_virtual, missing, no_counts, row_named, synced, FsKind, FsNode,
    SyncResult, SyncState,
};
use crate::db::tables::{dot, initial_tables, outs, DbText, TablesText, TupFlags};
use crate::ids::{ascending, ascending_lists};
use crate::types::{ids_are_finite, NodeType, TupId};

verus! {

// ------------------------------------------------ what is known of a tree

/// Whether a file with rules is known with the time of its last change, or not
/// there.
pub open spec fn rules_file_known(
    t: TablesText,
    dir: TupId,
    name: Seq<char>,
    found: Option<(i64, i64)>,
) -> bool {
    match found {
        None => true,
        Some((mtime, mtime_ns)) => {
            &&& t.select(dir, name) is Some
            &&& t.nodes[t.select(dir, name)->0].mtime == mtime
            &&& t.nodes[t.select(dir, name)->0].mtime_ns == mtime_ns
        },
    }
}

/// Whether the first entries of a directory are known as they are. A directory
/// on disk whose name belongs to something else is known by that.
pub open spec fn entries_known(
    t: TablesText,
    dir: TupId,
    entries: Seq<FsNode>,
    n: nat,
    none_gone: bool,
) -> bool
    decreases entries, n,
{
    if n == 0 || n > entries.len() {
        true
    } else {
        let e = entries[n - 1];
        &&& entries_known(t, dir, entries, (n - 1) as nat, none_gone)
        &&& is_hidden(e.name@) || {
            &&& !is_virtual(e.name@)
            &&& t.select(dir, e.name@) is Some
            &&& ({
                let row = t.nodes[t.select(dir, e.name@)->0];
                &&& row.node_type != NodeType::GhostNode
                &&& match e.kind {
                    FsKind::File { mtime, mtime_ns } => row.mtime == mtime && row.mtime_ns
                        == mtime_ns,
                    FsKind::Dir { tupfile, tupfile_lua, entries: sub } => row.node_type
                        == NodeType::Dir || row.node_type == NodeType::GeneratedDir ==> {
                        &&& rules_file_known(t, row.id, "Tupfile"@, tupfile)
                        &&& rules_file_known(t, row.id, "Tupfile.lua"@, tupfile_lua)
                        &&& dir_known(t, row.id, sub@, none_gone)
                    },
                }
            })
        }
    }
}

/// Whether a node is a file or a directory that is no longer on disk.
pub open spec fn is_gone(row: RowText, entries: Seq<FsNode>) -> bool {
    &&& row.node_type == NodeType::File || row.node_type == NodeType::Dir
    &&& !is_virtual(row.name)
    &&& !is_on_disk(entries, row.name)
}

/// Whether the database knows a directory and all that is in it as it is on
/// disk: every entry is known, and what is gone is modified, or nothing is gone.
pub open spec fn dir_known(
    t: TablesText,
    dir: TupId,
    entries: Seq<FsNode>,
    none_gone: bool,
) -> bool
    decreases entries, entries.len() + 1,
{
    &&& entries_known(t, dir, entries, entries.len(), none_gone)
    &&& forall|id: TupId| #[trigger]
        t.nodes.dom().contains(id) && t.nodes[id].dir == dir && is_gone(t.nodes[id], entries)
            ==> !none_gone && (t.flags)(TupFlags::Modify).contains(id)
}

/// The row with a name among those of a directory is that of the node with the
/// name.
proof fn lemma_row_named(t: TablesText, dir: TupId, name: Seq<char>)
    requires
        unique_names(t.nodes),
    ensures
        row_named(t.rows_in(dir), name) == (if is_virtual(name) {
            None
        } else {
            match t.select(dir, name) {
                Some(id) => Some(t.nodes[id]),
                None => None,
            }
        }),
{
    let ids = ascending(nodes_in(t.nodes, dir));
    let rows = t.rows_in(dir);
    ascending_lists(nodes_in(t.nodes, dir));
    assert forall|i: int| 0 <= i < rows.len() implies t.nodes.dom().contains(
        #[trigger] ids[i],
    ) && rows[i] == t.nodes[ids[i]] && rows[i].dir == dir by {
        assert(ids.contains(ids[i]));
    }
    lemma_row_named_from(rows, name);
    match row_named(rows, name) {
        Some(row) => {
            let i = choose|i: int| 0 <= i < rows.len() && #[trigger] rows[i] == row;
            assert(t.nodes.dom().contains(ids[i]));
            assert(is_named(t.nodes, dir, name, ids[i]));
            a_name_finds_its_node(t.nodes, dir, name, ids[i]);
        },
        None => {
            if !is_virtual(name) && t.select(dir, name) is Some {
                let id = t.select(dir, name)->0;
                assert(is_named(t.nodes, dir, name, id));
                assert(nodes_in(t.nodes, dir).contains(id));
                assert(ids.contains(id));
                let i = choose|i: int| 0 <= i < ids.len() && ids[i] == id;
                assert(rows[i].name == name);
            }
        },
    }
}

proof fn lemma_row_named_from(rows: Seq<RowText>, name: Seq<char>)
    ensures
        match row_named(rows, name) {
            Some(row) => !is_virtual(name) && row.name == name && exists|i: int|
                0 <= i < rows.len() && #[trigger] rows[i] == row,
            None => is_virtual(name) || forall|i: int|
                0 <= i < rows.len() ==> (#[trigger] rows[i]).name != name,
        },
    decreases rows.len(),
{
    if rows.len() > 0 {
        let b = rows.drop_last();
        lemma_row_named_from(b, name);
        if rows.last().name == name && !is_virtual(name) {
            assert(rows[rows.len() - 1] == rows.last());
        } else {
            match row_named(b, name) {
                Some(row) => {
                    let i = choose|i: int| 0 <= i < b.len() && #[trigger] b[i] == row;
                    assert(rows[i] == row);
                },
                None => {
                    if !is_virtual(name) {
                        assert forall|i: int| 0 <= i < rows.len() implies (
                        #[trigger] rows[i]).name != name by {
                            if i < b.len() {
                                assert(b[i] == rows[i]);
                            }
                        }
                    }
                },
            }
        }
    }
}

/// Counts of files and directories that were added or modified are the same.
pub open spec fn same_changes(a: SyncResult, b: SyncResult) -> bool {
    &&& a.files_added == b.files_added
    &&& a.files_modified == b.files_modified
    &&& a.dirs_added == b.dirs_added
}

proof fn lemma_known_rules_files(
    s: SyncState,
    dir: TupId,
    tupfile: Option<(i64, i64)>,
    tupfile_lua: Option<(i64, i64)>,
)
    requires
        s.error is None,
        rules_file_known(s.world.tables, dir, "Tupfile"@, tupfile),
        rules_file_known(s.world.tables, dir, "Tupfile.lua"@, tupfile_lua),
    ensures
        s.rules_files(dir, tupfile, tupfile_lua).world == s.world,
        s.rules_files(dir, tupfile, tupfile_lua).error is None,
        same_changes(s.rules_files(dir, tupfile, tupfile_lua).counts, s.counts),
        s.rules_files(dir, tupfile, tupfile_lua).counts.files_deleted == s.counts.files_deleted,
{
    let t = s.world.tables;
    if (t.flags)(TupFlags::Create).contains(dir) {
        marks_are_set_once(t, dir, TupFlags::Create);
    }
}

/// What is gone and modified already changes nothing.
proof fn lemma_gone_again(
    s: SyncState,
    rows: Seq<RowText>,
    entries: Seq<FsNode>,
    none_gone: bool,
)
    requires
        forall|i: int|
            0 <= i < rows.len() && is_gone(#[trigger] rows[i], entries) ==> !none_gone && (
            s.world.tables.flags)(TupFlags::Modify).contains(rows[i].id),
    ensures
        s.gone(rows, entries).world == s.world,
        s.gone(rows, entries).error == s.error,
        same_changes(s.gone(rows, entries).counts, s.counts),
        none_gone ==> s.gone(rows, entries).counts == s.counts,
    decreases rows.len(),
{
    if rows.len() > 0 {
        let b = rows.drop_last();
        assert forall|i: int| 0 <= i < b.len() && is_gone(#[trigger] b[i], entries) implies
            !none_gone && (s.world.tables.flags)(TupFlags::Modify).contains(b[i].id) by {
            assert(b[i] == rows[i]);
        }
        lemma_gone_again(s, b, entries, none_gone);
        assert(rows.last() == rows[rows.len() - 1]);
        if is_gone(rows.last(), entries) {
            marks_are_set_once(s.world.tables, rows.last().id, TupFlags::Modify);
        }
    }
}

proof fn lemma_entries_known(
    s: SyncState,
    dir: TupId,
    entries: Seq<FsNode>,
    n: nat,
    none_gone: bool,
)
    requires
        s.error is None,
        n <= entries.len(),
        unique_names(s.world.tables.nodes),
        entries_known(s.world.tables, dir, entries, n, none_gone),
    ensures
        ({
            let after = s.entries(dir, s.world.tables.rows_in(dir), entries, n);
            &&& after.world == s.world
            &&& after.error is None
            &&& same_changes(after.counts, s.counts)
            &&& none_gone ==> after.counts.files_deleted == s.counts.files_deleted
        }),
    decreases entries, n,
{
    if n > 0 {
        let rows = s.world.tables.rows_in(dir);
        lemma_entries_known(s, dir, entries, (n - 1) as nat, none_gone);
        let before = s.entries(dir, rows, entries, (n - 1) as nat);
        let e = entries[n - 1];
        if !is_hidden(e.name@) {
            lemma_row_named(s.world.tables, dir, e.name@);
            let row = row_named(rows, e.name@)->0;
            match e.kind {
                FsKind::File { mtime, mtime_ns } => {},
                FsKind::Dir { tupfile, tupfile_lua, entries: sub } => {
                    if row.node_type == NodeType::Dir || row.node_type == NodeType::GeneratedDir {
                        lemma_known_rules_files(before, row.id, tupfile, tupfile_lua);
                        let checked = before.rules_files(row.id, tupfile, tupfile_lua);
                        assert(decreases_to!(entries => entries[n - 1]));
                        known_files_change_nothing(checked, row.id, sub@, none_gone);
                    }
                },
            }
        }
    }
}

/// Where the database knows a directory and all that is in it as it is on disk,
/// synchronizing changes nothing in the database and in the cache, and counts
/// nothing that was added or modified, and nothing that was deleted if nothing
/// is gone.
pub proof fn known_files_change_nothing(
    s: SyncState,
    dir: TupId,
    entries: Seq<FsNode>,
    none_gone: bool,
)
    requires
        s.error is None,
        unique_names(s.world.tables.nodes),
        dir_known(s.world.tables, dir, entries, none_gone),
    ensures
        s.dir(dir, entries).world == s.world,
        s.dir(dir, entries).error is None,
        same_changes(s.dir(dir, entries).counts, s.counts),
        none_gone ==> s.dir(dir, entries).counts.files_deleted == s.counts.files_deleted,
    decreases entries, entries.len() + 1,
{
    let t = s.world.tables;
    let rows = t.rows_in(dir);
    lemma_entries_known(s, dir, entries, entries.len(), none_gone);
    let after = s.entries(dir, rows, entries, entries.len());
    let ids = ascending(nodes_in(t.nodes, dir));
    ascending_lists(nodes_in(t.nodes, dir));
    assert forall|i: int| 0 <= i < rows.len() && is_gone(#[trigger] rows[i], entries) implies
        !none_gone && (after.world.tables.flags)(TupFlags::Modify).contains(rows[i].id) by {
        assert(ids.contains(ids[i]));
        assert(t.nodes.dom().contains(ids[i]));
    }
    lemma_gone_again(after, rows, entries, none_gone);
}

// ------------------------------------------------ the tree of directories

/// What holds of the nodes of a project: names are unique, and nothing is above
/// the top directory.
pub open spec fn is_tree(nodes: Map<TupId, RowText>) -> bool {
    &&& unique_names(nodes)
    &&& nodes.dom().contains(dot())
    &&& nodes[dot()].dir == TupId(0)
    &&& !nodes.dom().contains(TupId(0))
}

/// A new database is such a tree.
pub proof fn a_new_database_is_a_tree()
    ensures
        is_tree(initial_tables().nodes),
{
    a_new_database_is_sound();
}

/// A node is at one depth.
proof fn lemma_one_depth(nodes: Map<TupId, RowText>, x: TupId, k: nat, j: nat)
    requires
        is_tree(nodes),
        steps_up(nodes, x, dot(), k),
        steps_up(nodes, x, dot(), j),
    ensures
        k == j,
    decreases k + j,
{
    if k == 0 && j > 0 {
        assert(steps_up(nodes, TupId(0), dot(), (j - 1) as nat));
        assert(j - 1 == 0 || nodes.dom().contains(TupId(0)));
    } else if j == 0 && k > 0 {
        assert(steps_up(nodes, TupId(0), dot(), (k - 1) as nat));
        assert(k - 1 == 0 || nodes.dom().contains(TupId(0)));
    } else if k > 0 {
        lemma_one_depth(nodes, nodes[x].dir, (k - 1) as nat, (j - 1) as nat);
    }
}

proof fn lemma_steps_add(
    nodes: Map<TupId, RowText>,
    x: TupId,
    y: TupId,
    z: TupId,
    k: nat,
    j: nat,
)
    requires
        steps_up(nodes, x, y, k),
        steps_up(nodes, y, z, j),
    ensures
        steps_up(nodes, x, z, k + j),
    decreases k,
{
    if k > 0 {
        lemma_steps_add(nodes, nodes[x].dir, y, z, (k - 1) as nat, j);
    }
}

proof fn lemma_one_ancestor(nodes: Map<TupId, RowText>, x: TupId, a: TupId, b: TupId, k: nat)
    requires
        steps_up(nodes, x, a, k),
        steps_up(nodes, x, b, k),
    ensures
        a == b,
    decreases k,
{
    if k > 0 {
        lemma_one_ancestor(nodes, nodes[x].dir, a, b, (k - 1) as nat);
    }
}

/// What is below two nodes of one depth is below none or they are the same.
pub proof fn lemma_apart(
    nodes: Map<TupId, RowText>,
    x: TupId,
    a: TupId,
    b: TupId,
    depth: nat,
)
    requires
        is_tree(nodes),
        steps_up(nodes, a, dot(), depth),
        steps_up(nodes, b, dot(), depth),
        at_or_below(nodes, x, a),
        at_or_below(nodes, x, b),
    ensures
        a == b,
{
    let k = choose|k: nat| steps_up(nodes, x, a, k);
    let j = choose|j: nat| steps_up(nodes, x, b, j);
    lemma_steps_add(nodes, x, a, dot(), k, depth);
    lemma_steps_add(nodes, x, b, dot(), j, depth);
    lemma_one_depth(nodes, x, k + depth, j + depth);
    lemma_one_ancestor(nodes, x, a, b, k);
}

/// A directory is not below what is in it.
pub proof fn lemma_not_below_child(nodes: Map<TupId, RowText>, dir: TupId, child: TupId, depth: nat)
    requires
        is_tree(nodes),
        steps_up(nodes, dir, dot(), depth),
        nodes.dom().contains(child),
        nodes[child].dir == dir,
    ensures
        !at_or_below(nodes, dir, child),
{
    if at_or_below(nodes, dir, child) {
        let k = choose|k: nat| steps_up(nodes, dir, child, k);
        assert(steps_up(nodes, child, dot(), depth + 1));
        lemma_steps_add(nodes, dir, child, dot(), k, depth + 1);
        lemma_one_depth(nodes, dir, k + depth + 1, depth);
    }
}

/// What is in something that is below a directory is below it.
pub proof fn lemma_below_through(nodes: Map<TupId, RowText>, x: TupId, y: TupId, z: TupId)
    requires
        at_or_below(nodes, x, y),
        at_or_below(nodes, y, z),
    ensures
        at_or_below(nodes, x, z),
{
    let k = choose|k: nat| steps_up(nodes, x, y, k);
    let j = choose|j: nat| steps_up(nodes, y, z, j);
    lemma_steps_add(nodes, x, y, z, k, j);
}

pub proof fn lemma_child_below(nodes: Map<TupId, RowText>, x: TupId, top: TupId)
    requires
        nodes.dom().contains(x),
        at_or_below(nodes, nodes[x].dir, top),
    ensures
        at_or_below(nodes, x, top),
{
    let k = choose|k: nat| steps_up(nodes, nodes[x].dir, top, k);
    assert(steps_up(nodes, x, top, k + 1));
}

pub proof fn lemma_at_itself(nodes: Map<TupId, RowText>, x: TupId)
    ensures
        at_or_below(nodes, x, x),
{
    assert(steps_up(nodes, x, x, 0));
}

// ------------------------------------------------ what a synchronization keeps

/// What a synchronization keeps: every node with its place, its type unless it is
/// a placeholder, and every mark.
pub open spec fn grown(t: TablesText, u: TablesText) -> bool {
    &&& forall|x: TupId| #[trigger]
        t.nodes.dom().contains(x) ==> {
            &&& u.nodes.dom().contains(x)
            &&& u.nodes[x].dir == t.nodes[x].dir
            &&& u.nodes[x].name == t.nodes[x].name
            &&& t.nodes[x].node_type != NodeType::GhostNode ==> u.nodes[x].node_type
                == t.nodes[x].node_type
        }
    &&& forall|f: TupFlags, x: TupId|
        (t.flags)(f).contains(x) ==> #[trigger] (u.flags)(f).contains(x)
}

/// Whether only what is below a directory was changed or added.
pub open spec fn only_below(t: TablesText, u: TablesText, top: TupId) -> bool {
    forall|x: TupId| #[trigger]
        u.nodes.dom().contains(x) && !at_or_below(u.nodes, u.nodes[x].dir, top)
            ==> t.nodes.dom().contains(x) && u.nodes[x] == t.nodes[x]
}

/// A change of what is below a directory.
pub open spec fn change_below(t: TablesText, u: TablesText, top: TupId) -> bool {
    grown(t, u) && only_below(t, u, top) && is_tree(u.nodes)
}

proof fn lemma_steps_grow(t: TablesText, u: TablesText, x: TupId, to: TupId, k: nat)
    requires
        grown(t, u),
        steps_up(t.nodes, x, to, k),
    ensures
        steps_up(u.nodes, x, to, k),
    decreases k,
{
    if k > 0 {
        lemma_steps_grow(t, u, t.nodes[x].dir, to, (k - 1) as nat);
    }
}

proof fn lemma_below_grows(t: TablesText, u: TablesText, x: TupId, top: TupId)
    requires
        grown(t, u),
        at_or_below(t.nodes, x, top),
    ensures
        at_or_below(u.nodes, x, top),
{
    let k = choose|k: nat| steps_up(t.nodes, x, top, k);
    lemma_steps_grow(t, u, x, top, k);
}

proof fn lemma_changes_add(t: TablesText, u: TablesText, v: TablesText, top: TupId)
    requires
        change_below(t, u, top),
        change_below(u, v, top),
    ensures
        change_below(t, v, top),
{
    assert forall|x: TupId| #[trigger]
        v.nodes.dom().contains(x) && !at_or_below(v.nodes, v.nodes[x].dir, top) implies
        t.nodes.dom().contains(x) && v.nodes[x] == t.nodes[x] by {
        assert(u.nodes.dom().contains(x));
        if at_or_below(u.nodes, u.nodes[x].dir, top) {
            lemma_below_grows(u, v, u.nodes[x].dir, top);
        }
    }
    assert forall|x: TupId| #[trigger] t.nodes.dom().contains(x) implies {
        &&& v.nodes.dom().contains(x)
        &&& v.nodes[x].dir == t.nodes[x].dir
        &&& v.nodes[x].name == t.nodes[x].name
        &&& t.nodes[x].node_type != NodeType::GhostNode ==> v.nodes[x].node_type
            == t.nodes[x].node_type
    } by {
        assert(u.nodes.dom().contains(x));
    }
}

proof fn lemma_change_widens(t: TablesText, u: TablesText, sub: TupId, top: TupId)
    requires
        change_below(t, u, sub),
        at_or_below(u.nodes, sub, top),
    ensures
        change_below(t, u, top),
{
    assert forall|x: TupId| #[trigger]
        u.nodes.dom().contains(x) && !at_or_below(u.nodes, u.nodes[x].dir, top) implies
        t.nodes.dom().contains(x) && u.nodes[x] == t.nodes[x] by {
        if at_or_below(u.nodes, u.nodes[x].dir, sub) {
            lemma_below_through(u.nodes, u.nodes[x].dir, sub, top);
        }
    }
}

/// Marks change no node.
proof fn lemma_marked(t: TablesText, u: TablesText, top: TupId)
    requires
        is_tree(t.nodes),
        u.nodes == t.nodes,
        forall|f: TupFlags, x: TupId|
            (t.flags)(f).contains(x) ==> #[trigger] (u.flags)(f).contains(x),
    ensures
        change_below(t, u, top),
{
}

/// A new node changes what is below its directory.
proof fn lemma_added(
    t: TablesText,
    dir: TupId,
    name: Seq<char>,
    node_type: NodeType,
    mtime: i64,
    mtime_ns: i64,
)
    requires
        is_tree(t.nodes),
        t.new_row(dir, name, node_type, mtime, mtime_ns, -1i64, None, None) is Ok,
    ensures
        ({
            let row = t.new_row(dir, name, node_type, mtime, mtime_ns, -1i64, None, None)->Ok_0;
            &&& change_below(t, t.put(row), dir)
            &&& t.put(row).select(dir, name) == Some(row.id)
            &&& t.put(row).nodes[row.id] == row
            &&& forall|x: TupId| #[trigger]
                t.put(row).nodes.dom().contains(x) && x != row.id ==> t.nodes.dom().contains(x)
                    && t.put(row).nodes[x] == t.nodes[x]
        }),
{
    let row = t.new_row(dir, name, node_type, mtime, mtime_ns, -1i64, None, None)->Ok_0;
    let u = t.put(row);
    a_new_node_is_found(t, dir, name, node_type, mtime, mtime_ns, -1i64, None, None);
    new_identifier_is_new(t.nodes);
    if exists|id: TupId| #[trigger] is_greatest(t.nodes, id) {
        let g = choose|id: TupId| #[trigger] is_greatest(t.nodes, id);
        assert(t.nodes.dom().contains(dot()));
        assert(g.0 >= 1);
    }
    assert(row.id.0 != 0);
    lemma_at_itself(u.nodes, dir);
}

/// A new time or type of a node changes what is below its directory.
proof fn lemma_edited_below(t: TablesText, u: TablesText, id: TupId)
    requires
        is_tree(t.nodes),
        t.nodes.dom().contains(id),
        u.nodes.dom() == t.nodes.dom(),
        forall|x: TupId| #[trigger] t.nodes.dom().contains(x) && x != id ==> u.nodes[x] == t.nodes[x],
        u.nodes[id].id == id,
        u.nodes[id].dir == t.nodes[id].dir,
        u.nodes[id].name == t.nodes[id].name,
        t.nodes[id].node_type != NodeType::GhostNode ==> u.nodes[id].node_type
            == t.nodes[id].node_type,
        forall|f: TupFlags, x: TupId|
            (t.flags)(f).contains(x) ==> #[trigger] (u.flags)(f).contains(x),
    ensures
        change_below(t, u, t.nodes[id].dir),
{
    lemma_edited(t, u, id);
    lemma_at_itself(u.nodes, t.nodes[id].dir);
}

/// Whether a node is one with a name in a directory, or below it.
pub open spec fn is_inside(
    nodes: Map<TupId, RowText>,
    x: TupId,
    dir: TupId,
    name: Seq<char>,
) -> bool {
    exists|y: TupId| #[trigger] is_named(nodes, dir, name, y) && at_or_below(nodes, x, y)
}

/// Whether only a node with a name and what is below it was changed or added.
pub open spec fn only_inside(t: TablesText, u: TablesText, dir: TupId, name: Seq<char>) -> bool {
    forall|x: TupId| #[trigger]
        u.nodes.dom().contains(x) && !is_inside(u.nodes, x, dir, name) ==> t.nodes.dom().contains(x)
            && u.nodes[x] == t.nodes[x]
}

/// What has another name in the directory is not inside.
proof fn lemma_not_inside(
    nodes: Map<TupId, RowText>,
    x: TupId,
    dir: TupId,
    name: Seq<char>,
    depth: nat,
)
    requires
        is_tree(nodes),
        steps_up(nodes, dir, dot(), depth),
        nodes.dom().contains(x),
        nodes[x].dir == dir,
        nodes[x].name != name,
    ensures
        !is_inside(nodes, x, dir, name),
{
    if is_inside(nodes, x, dir, name) {
        let y = choose|y: TupId| #[trigger]
            is_named(nodes, dir, name, y) && at_or_below(nodes, x, y);
        let k = choose|k: nat| steps_up(nodes, x, y, k);
        if k > 0 {
            assert(steps_up(nodes, dir, y, (k - 1) as nat));
            assert(at_or_below(nodes, dir, y));
            lemma_not_below_child(nodes, dir, y, depth);
        }
    }
}

proof fn lemma_rules_file_kept(
    t: TablesText,
    u: TablesText,
    dir: TupId,
    name: Seq<char>,
    found: Option<(i64, i64)>,
)
    requires
        unique_names(u.nodes),
        grown(t, u),
        forall|x: TupId| #[trigger]
            u.nodes.dom().contains(x) && u.nodes[x].dir == dir ==> t.nodes.dom().contains(x)
                && u.nodes[x] == t.nodes[x],
        rules_file_known(t, dir, name, found),
    ensures
        rules_file_known(u, dir, name, found),
{
    if found is Some {
        let id = t.select(dir, name)->0;
        assert(is_named(t.nodes, dir, name, id));
        assert(u.nodes.dom().contains(id));
        a_name_finds_its_node(u.nodes, dir, name, id);
    }
}

/// Whether what is below a directory is as it was.
spec fn same_below(t: TablesText, u: TablesText, dir: TupId) -> bool {
    forall|x: TupId| #[trigger]
        u.nodes.dom().contains(x) && at_or_below(u.nodes, u.nodes[x].dir, dir)
            ==> t.nodes.dom().contains(x) && u.nodes[x] == t.nodes[x]
}

proof fn lemma_same_below_child(t: TablesText, u: TablesText, dir: TupId, id: TupId)
    requires
        same_below(t, u, dir),
        u.nodes.dom().contains(id),
        u.nodes[id].dir == dir,
    ensures
        same_below(t, u, id),
        forall|x: TupId| #[trigger]
            u.nodes.dom().contains(x) && u.nodes[x].dir == id ==> t.nodes.dom().contains(x)
                && u.nodes[x] == t.nodes[x],
{
    lemma_at_itself(u.nodes, dir);
    lemma_child_below(u.nodes, id, dir);
    assert forall|x: TupId| #[trigger]
        u.nodes.dom().contains(x) && at_or_below(u.nodes, u.nodes[x].dir, id) implies
        t.nodes.dom().contains(x) && u.nodes[x] == t.nodes[x] by {
        lemma_below_through(u.nodes, u.nodes[x].dir, id, dir);
    }
    lemma_at_itself(u.nodes, id);
}

proof fn lemma_entries_kept(
    t: TablesText,
    u: TablesText,
    dir: TupId,
    entries: Seq<FsNode>,
    n: nat,
    none_gone: bool,
)
    requires
        unique_names(t.nodes),
        unique_names(u.nodes),
        grown(t, u),
        same_below(t, u, dir),
        n <= entries.len(),
        entries_known(t, dir, entries, n, none_gone),
    ensures
        entries_known(u, dir, entries, n, none_gone),
    decreases entries, n,
{
    if n > 0 {
        lemma_entries_kept(t, u, dir, entries, (n - 1) as nat, none_gone);
        let e = entries[n - 1];
        if !is_hidden(e.name@) {
            let id = t.select(dir, e.name@)->0;
            assert(is_named(t.nodes, dir, e.name@, id));
            assert(u.nodes.dom().contains(id));
            lemma_at_itself(u.nodes, dir);
            a_name_finds_its_node(u.nodes, dir, e.name@, id);
            match e.kind {
                FsKind::File { mtime, mtime_ns } => {},
                FsKind::Dir { tupfile, tupfile_lua, entries: sub } => {
                    let row = t.nodes[id];
                    if row.node_type == NodeType::Dir || row.node_type == NodeType::GeneratedDir {
                        lemma_same_below_child(t, u, dir, id);
                        lemma_rules_file_kept(t, u, id, "Tupfile"@, tupfile);
                        lemma_rules_file_kept(t, u, id, "Tupfile.lua"@, tupfile_lua);
                        assert(decreases_to!(entries => entries[n - 1]));
                        lemma_dir_kept(t, u, id, sub@, none_gone);
                    }
                },
            }
        }
    }
}

/// A directory is known as long as what is below it stays.
proof fn lemma_dir_kept(
    t: TablesText,
    u: TablesText,
    dir: TupId,
    entries: Seq<FsNode>,
    none_gone: bool,
)
    requires
        unique_names(t.nodes),
        unique_names(u.nodes),
        grown(t, u),
        same_below(t, u, dir),
        dir_known(t, dir, entries, none_gone),
    ensures
        dir_known(u, dir, entries, none_gone),
    decreases entries, entries.len() + 1,
{
    lemma_entries_kept(t, u, dir, entries, entries.len(), none_gone);
    lemma_at_itself(u.nodes, dir);
    assert forall|id: TupId| #[trigger]
        u.nodes.dom().contains(id) && u.nodes[id].dir == dir && is_gone(
            u.nodes[id],
            entries,
        ) implies !none_gone && (u.flags)(TupFlags::Modify).contains(id) by {
        assert(t.nodes.dom().contains(id));
        assert((t.flags)(TupFlags::Modify).contains(id));
    }
}

/// The first entries of a directory are known as long as only what has another
/// name changes.
proof fn lemma_others_known(
    t: TablesText,
    u: TablesText,
    dir: TupId,
    name: Seq<char>,
    entries: Seq<FsNode>,
    n: nat,
    depth: nat,
    none_gone: bool,
)
    requires
        is_tree(t.nodes),
        is_tree(u.nodes),
        grown(t, u),
        steps_up(u.nodes, dir, dot(), depth),
        only_inside(t, u, dir, name),
        n <= entries.len(),
        forall|j: int| 0 <= j < n ==> (#[trigger] entries[j]).name@ != name,
        entries_known(t, dir, entries, n, none_gone),
    ensures
        entries_known(u, dir, entries, n, none_gone),
    decreases n,
{
    if n > 0 {
        lemma_others_known(t, u, dir, name, entries, (n - 1) as nat, depth, none_gone);
        let e = entries[n - 1];
        if !is_hidden(e.name@) {
            let id = t.select(dir, e.name@)->0;
            assert(is_named(t.nodes, dir, e.name@, id));
            assert(u.nodes.dom().contains(id));
            lemma_not_inside(u.nodes, id, dir, name, depth);
            a_name_finds_its_node(u.nodes, dir, e.name@, id);
            match e.kind {
                FsKind::File { mtime, mtime_ns } => {},
                FsKind::Dir { tupfile, tupfile_lua, entries: sub } => {
                    let row = t.nodes[id];
                    if row.node_type == NodeType::Dir || row.node_type == NodeType::GeneratedDir {
                        assert forall|x: TupId| #[trigger]
                            u.nodes.dom().contains(x) && at_or_below(
                                u.nodes,
                                u.nodes[x].dir,
                                id,
                            ) implies t.nodes.dom().contains(x) && u.nodes[x] == t.nodes[x] by {
                            if is_inside(u.nodes, x, dir, name) {
                                let y = choose|y: TupId| #[trigger]
                                    is_named(u.nodes, dir, name, y) && at_or_below(u.nodes, x, y);
                                lemma_child_below(u.nodes, x, id);
                                assert(steps_up(u.nodes, y, dot(), depth + 1));
                                assert(steps_up(u.nodes, id, dot(), depth + 1));
                                lemma_apart(u.nodes, x, y, id, depth + 1);
                            }
                        }
                        lemma_at_itself(u.nodes, id);
                        lemma_rules_file_kept(t, u, id, "Tupfile"@, tupfile);
                        lemma_rules_file_kept(t, u, id, "Tupfile.lua"@, tupfile_lua);
                        lemma_dir_kept(t, u, id, sub@, none_gone);
                    }
                },
            }
        }
    }
}

// ------------------------------------------------ the steps of a synchronization

/// Whether rows hold what the tables say of a name in a directory.
spec fn row_is_current(t: TablesText, dir: TupId, rows: Seq<RowText>, name: Seq<char>) -> bool {
    row_named(rows, name) == match t.select(dir, name) {
        Some(id) => Some(t.nodes[id]),
        None => None,
    }
}

/// After a change of one node only that node was changed.
proof fn lemma_changed_is_inside(t: TablesText, u: TablesText, dir: TupId, name: Seq<char>, id: TupId)
    requires
        is_named(u.nodes, dir, name, id),
        forall|x: TupId| #[trigger]
            u.nodes.dom().contains(x) && x != id ==> t.nodes.dom().contains(x) && u.nodes[x]
                == t.nodes[x],
    ensures
        only_inside(t, u, dir, name),
{
    lemma_at_itself(u.nodes, id);
    assert forall|x: TupId| #[trigger]
        u.nodes.dom().contains(x) && !is_inside(u.nodes, x, dir, name) implies
        t.nodes.dom().contains(x) && u.nodes[x] == t.nodes[x] by {
        if x == id {
            assert(is_inside(u.nodes, id, dir, name));
        }
    }
}

proof fn lemma_file_step(
    s: SyncState,
    dir: TupId,
    rows: Seq<RowText>,
    name: Seq<char>,
    mtime: i64,
    mtime_ns: i64,
)
    requires
        s.error is None,
        is_tree(s.world.tables.nodes),
        row_is_current(s.world.tables, dir, rows, name),
        s.file(dir, rows, name, mtime, mtime_ns).error is None,
    ensures
        ({
            let t = s.world.tables;
            let after = s.file(dir, rows, name, mtime, mtime_ns);
            let u = after.world.tables;
            &&& change_below(t, u, dir)
            &&& only_inside(t, u, dir, name)
            &&& u.select(dir, name) is Some
            &&& u.nodes[u.select(dir, name)->0].node_type != NodeType::GhostNode
            &&& u.nodes[u.select(dir, name)->0].mtime == mtime
            &&& u.nodes[u.select(dir, name)->0].mtime_ns == mtime_ns
            &&& after.world.cache.entries.dom() == s.world.cache.entries.dom()
            &&& after.counts.files_deleted == s.counts.files_deleted
        }),
{
    let t = s.world.tables;
    let after = s.file(dir, rows, name, mtime, mtime_ns);
    let u = after.world.tables;
    assert(after.world.cache.entries.dom() =~= s.world.cache.entries.dom());
    match t.select(dir, name) {
        Some(id) => {
            assert(is_named(t.nodes, dir, name, id));
            assert(t.nodes.dom().contains(id));
            assert(u.nodes.dom() =~= t.nodes.dom());
            assert forall|f: TupFlags, x: TupId| (t.flags)(f).contains(x) implies #[trigger] (
            u.flags)(f).contains(x) by {
            }
            lemma_edited_below(t, u, id);
            assert(is_named(u.nodes, dir, name, id));
            a_name_finds_its_node(u.nodes, dir, name, id);
            lemma_changed_is_inside(t, u, dir, name, id);
        },
        None => {
            let row = t.new_row(
                dir,
                name,
                NodeType::File,
                mtime,
                mtime_ns,
                -1i64,
                None,
                None,
            )->Ok_0;
            lemma_added(t, dir, name, NodeType::File, mtime, mtime_ns);
            let v = t.put(row);
            assert(u.nodes == v.nodes);
            assert forall|f: TupFlags, x: TupId| (v.flags)(f).contains(x) implies #[trigger] (
            u.flags)(f).contains(x) by {
            }
            lemma_marked(v, u, dir);
            lemma_changes_add(t, v, u, dir);
            assert(is_named(u.nodes, dir, name, row.id));
            lemma_changed_is_inside(t, u, dir, name, row.id);
        },
    }
}

proof fn lemma_dir_node_step(s: SyncState, dir: TupId, rows: Seq<RowText>, name: Seq<char>)
    requires
        s.error is None,
        is_tree(s.world.tables.nodes),
        row_is_current(s.world.tables, dir, rows, name),
        s.dir_node(dir, rows, name).0.error is None,
    ensures
        ({
            let t = s.world.tables;
            let (after, node) = s.dir_node(dir, rows, name);
            let u = after.world.tables;
            &&& change_below(t, u, dir)
            &&& u.select(dir, name) is Some
            &&& ({
                let id = u.select(dir, name)->0;
                let row = u.nodes[id];
                &&& is_named(u.nodes, dir, name, id)
                &&& row.node_type != NodeType::GhostNode
                &&& (row.node_type == NodeType::Dir || row.node_type == NodeType::GeneratedDir)
                    == (node is Some)
                &&& node is Some ==> node == Some(id)
                &&& forall|x: TupId| #[trigger]
                    u.nodes.dom().contains(x) && x != id ==> t.nodes.dom().contains(x)
                        && u.nodes[x] == t.nodes[x]
                &&& t.nodes.dom().contains(id) ==> row.mtime == t.nodes[id].mtime && row.mtime_ns
                    == t.nodes[id].mtime_ns
            })
            &&& s.world.cache.entries.dom().subset_of(after.world.cache.entries.dom())
            &&& after.counts.files_deleted == s.counts.files_deleted
        }),
{
    let t = s.world.tables;
    let (after, node) = s.dir_node(dir, rows, name);
    let u = after.world.tables;
    match t.select(dir, name) {
        Some(id) => {
            assert(is_named(t.nodes, dir, name, id));
            assert(t.nodes.dom().contains(id));
            assert(u.nodes.dom() =~= t.nodes.dom());
            lemma_edited_below(t, u, id);
            assert(is_named(u.nodes, dir, name, id));
            a_name_finds_its_node(u.nodes, dir, name, id);
        },
        None => {
            lemma_added(t, dir, name, NodeType::Dir, -1i64, 0);
            let row = t.new_row(dir, name, NodeType::Dir, -1i64, 0, -1i64, None, None)->Ok_0;
            new_identifier_is_new(t.nodes);
            assert(is_named(u.nodes, dir, name, row.id));
        },
    }
}

proof fn lemma_rules_file_step(
    t: TablesText,
    dir: TupId,
    name: Seq<char>,
    found: Option<(i64, i64)>,
    other: Seq<char>,
    other_found: Option<(i64, i64)>,
)
    requires
        is_tree(t.nodes),
        t.check_rules_file(dir, name, found).1 is Ok,
        other != name,
        rules_file_known(t, dir, other, other_found),
    ensures
        ({
            let u = t.check_rules_file(dir, name, found).0;
            &&& change_below(t, u, dir)
            &&& rules_file_known(u, dir, name, found)
            &&& rules_file_known(u, dir, other, other_found)
        }),
{
    let u = t.check_rules_file(dir, name, found).0;
    lemma_marked(t, t, dir);
    if found is Some {
        let (mtime, mtime_ns) = found->0;
        match t.select(dir, name) {
            Some(id) => {
                assert(is_named(t.nodes, dir, name, id));
                assert(t.nodes.dom().contains(id));
                assert(u.nodes.dom() =~= t.nodes.dom());
                lemma_edited_below(t, u, id);
                assert(is_named(u.nodes, dir, name, id));
                a_name_finds_its_node(u.nodes, dir, name, id);
                if other_found is Some {
                    let y = t.select(dir, other)->0;
                    assert(is_named(t.nodes, dir, other, y));
                    assert(is_named(u.nodes, dir, other, y));
                    a_name_finds_its_node(u.nodes, dir, other, y);
                }
            },
            None => {
                lemma_added(t, dir, name, NodeType::File, mtime, mtime_ns);
                if other_found is Some {
                    let y = t.select(dir, other)->0;
                    assert(is_named(t.nodes, dir, other, y));
                    new_identifier_is_new(t.nodes);
                    assert(is_named(u.nodes, dir, other, y));
                    a_name_finds_its_node(u.nodes, dir, other, y);
                }
            },
        }
    }
}

proof fn lemma_rules_step(
    s: SyncState,
    dir: TupId,
    tupfile: Option<(i64, i64)>,
    tupfile_lua: Option<(i64, i64)>,
)
    requires
        s.error is None,
        is_tree(s.world.tables.nodes),
        s.rules_files(dir, tupfile, tupfile_lua).error is None,
    ensures
        ({
            let t = s.world.tables;
            let after = s.rules_files(dir, tupfile, tupfile_lua);
            let u = after.world.tables;
            &&& change_below(t, u, dir)
            &&& rules_file_known(u, dir, "Tupfile"@, tupfile)
            &&& tupfile is None || tupfile_lua is None ==> rules_file_known(
                u,
                dir,
                "Tupfile.lua"@,
                tupfile_lua,
            )
            &&& after.world.cache == s.world.cache
            &&& after.counts.files_deleted == s.counts.files_deleted
        }),
{
    let t = s.world.tables;
    let after = s.rules_files(dir, tupfile, tupfile_lua);
    let u = after.world.tables;
    reveal_strlit("Tupfile");
    reveal_strlit("Tupfile.lua");
    assert("Tupfile"@.len() != "Tupfile.lua"@.len());
    lemma_marked(t, t, dir);
    if tupfile is Some || tupfile_lua is Some {
        let (a, r) = t.check_rules_file(dir, "Tupfile"@, tupfile);
        lemma_rules_file_step(t, dir, "Tupfile"@, tupfile, "Tupfile.lua"@, None);
        let b = if r == Ok::<bool, DbErrorText>(false) {
            lemma_rules_file_step(a, dir, "Tupfile.lua"@, tupfile_lua, "Tupfile"@, tupfile);
            lemma_changes_add(t, a, a.check_rules_file(dir, "Tupfile.lua"@, tupfile_lua).0, dir);
            a.check_rules_file(dir, "Tupfile.lua"@, tupfile_lua).0
        } else {
            a
        };
        assert(u.nodes == b.nodes);
        assert forall|f: TupFlags, x: TupId| (b.flags)(f).contains(x) implies #[trigger] (u.flags)(
            f,
        ).contains(x) by {
        }
        lemma_marked(b, u, dir);
        lemma_changes_add(t, b, u, dir);
    }
}

/// What is gone is modified, or nothing is gone where nothing was counted.
proof fn lemma_gone_step(s: SyncState, rows: Seq<RowText>, entries: Seq<FsNode>)
    ensures
        ({
            let after = s.gone(rows, entries);
            let t = s.world.tables;
            let u = after.world.tables;
            &&& u.nodes == t.nodes
            &&& forall|f: TupFlags, x: TupId|
                (t.flags)(f).contains(x) ==> #[trigger] (u.flags)(f).contains(x)
            &&& forall|i: int|
                0 <= i < rows.len() && is_gone(#[trigger] rows[i], entries) ==> (u.flags)(
                    TupFlags::Modify,
                ).contains(rows[i].id) && after.counts.files_deleted > 0
            &&& after.world.cache == s.world.cache
            &&& after.counts.files_deleted >= s.counts.files_deleted
        }),
    decreases rows.len(),
{
    if rows.len() > 0 {
        let b = rows.drop_last();
        lemma_gone_step(s, b, entries);
        let mid = s.gone(b, entries);
        let after = s.gone(rows, entries);
        let t = s.world.tables;
        let u = after.world.tables;
        assert forall|f: TupFlags, x: TupId| (t.flags)(f).contains(x) implies #[trigger] (u.flags)(
            f,
        ).contains(x) by {
            assert((mid.world.tables.flags)(f).contains(x));
        }
        assert forall|i: int|
            0 <= i < rows.len() && is_gone(#[trigger] rows[i], entries) implies (u.flags)(
            TupFlags::Modify,
        ).contains(rows[i].id) && after.counts.files_deleted > 0 by {
            if i < b.len() {
                assert(b[i] == rows[i]);
                assert((mid.world.tables.flags)(TupFlags::Modify).contains(rows[i].id));
            }
        }
    }
}

// ------------------------------------------------ a tree that stays as it is

/// Whether a file with a name is among the first entries.
pub open spec fn is_file_listed(entries: Seq<FsNode>, n: nat, name: Seq<char>) -> bool {
    exists|i: int|
        0 <= i < n && (#[trigger] entries[i]).name@ == name && entries[i].kind is File
}

/// Whether the time of a file with rules is that of the file in the list, if it is
/// in it.
pub open spec fn time_agrees(
    entries: Seq<FsNode>,
    name: Seq<char>,
    found: Option<(i64, i64)>,
) -> bool {
    match found {
        None => true,
        Some((m, m_ns)) => forall|i: int|
            0 <= i < entries.len() && (#[trigger] entries[i]).name@ == name ==> match entries[i].kind {
                FsKind::File { mtime, mtime_ns } => mtime == m && mtime_ns == m_ns,
                FsKind::Dir { .. } => true,
            },
    }
}

/// Whether the first entries can be of a tree on disk, and none has the name of a
/// virtual directory. Of two files with rules the second is a file in the list.
pub open spec fn is_steady(entries: Seq<FsNode>, n: nat) -> bool
    decreases entries, n,
{
    if n == 0 || n > entries.len() {
        true
    } else {
        let e = entries[n - 1];
        &&& is_steady(entries, (n - 1) as nat)
        &&& is_hidden(e.name@) || {
            &&& !is_virtual(e.name@)
            &&& forall|j: int| 0 <= j < n - 1 ==> (#[trigger] entries[j]).name@ != e.name@
            &&& match e.kind {
                FsKind::File { .. } => true,
                FsKind::Dir { tupfile, tupfile_lua, entries: sub } => {
                    &&& time_agrees(sub@, "Tupfile"@, tupfile)
                    &&& time_agrees(sub@, "Tupfile.lua"@, tupfile_lua)
                    &&& tupfile is Some && tupfile_lua is Some ==> is_file_listed(
                        sub@,
                        sub@.len(),
                        "Tupfile.lua"@,
                    )
                    &&& is_steady(sub@, sub@.len())
                },
            }
        }
    }
}

/// Whether an entry that is not hidden has a name, among the first ones.
spec fn is_listed(entries: Seq<FsNode>, n: nat, name: Seq<char>) -> bool {
    !is_hidden(name) && exists|i: int| 0 <= i < n && (#[trigger] entries[i]).name@ == name
}

/// Whether the nodes of a directory that are not listed are as they were.
spec fn others_kept(
    t: TablesText,
    u: TablesText,
    dir: TupId,
    entries: Seq<FsNode>,
    n: nat,
) -> bool {
    forall|x: TupId| #[trigger]
        u.nodes.dom().contains(x) && u.nodes[x].dir == dir && !is_listed(
            entries,
            n,
            u.nodes[x].name,
        ) ==> t.nodes.dom().contains(x) && u.nodes[x] == t.nodes[x]
}

/// Whether the times of nodes of a directory that are not listed as files are as
/// they were.
spec fn times_kept(
    t: TablesText,
    u: TablesText,
    dir: TupId,
    entries: Seq<FsNode>,
    n: nat,
) -> bool {
    forall|x: TupId| #[trigger]
        t.nodes.dom().contains(x) && t.nodes[x].dir == dir && !is_file_listed(
            entries,
            n,
            t.nodes[x].name,
        ) ==> u.nodes[x].mtime == t.nodes[x].mtime && u.nodes[x].mtime_ns == t.nodes[x].mtime_ns
}

/// A file on disk is no deleted file.
proof fn lemma_file_deletes_nothing(
    s: SyncState,
    dir: TupId,
    rows: Seq<RowText>,
    name: Seq<char>,
    mtime: i64,
    mtime_ns: i64,
)
    ensures
        s.file(dir, rows, name, mtime, mtime_ns).counts.files_deleted == s.counts.files_deleted,
{
}

/// One more entry does not lower the count of deleted files.
proof fn lemma_one_entry_deleted(
    s: SyncState,
    dir: TupId,
    rows: Seq<RowText>,
    entries: Seq<FsNode>,
    n: nat,
)
    requires
        0 < n <= entries.len(),
    ensures
        s.entries(dir, rows, entries, n).counts.files_deleted >= s.entries(
            dir,
            rows,
            entries,
            (n - 1) as nat,
        ).counts.files_deleted,
    decreases entries, n, 0nat,
{
    let before = s.entries(dir, rows, entries, (n - 1) as nat);
    let e = entries[n - 1];
    match e.kind {
        FsKind::File { mtime, mtime_ns } => {
            lemma_file_deletes_nothing(before, dir, rows, e.name@, mtime, mtime_ns);
        },
        FsKind::Dir { tupfile, tupfile_lua, entries: sub } => {
            let (mid, node) = before.dir_node(dir, rows, e.name@);
            if node is Some {
                let checked = mid.rules_files(node->0, tupfile, tupfile_lua);
                let sub_rows = checked.world.tables.rows_in(node->0);
                assert(decreases_to!(entries => entries[n - 1]));
                lemma_deleted_grows(checked, node->0, sub_rows, sub@, sub@.len());
                lemma_gone_step(
                    checked.entries(node->0, sub_rows, sub@, sub@.len()),
                    sub_rows,
                    sub@,
                );
                assert(checked.dir(node->0, sub@).counts.files_deleted
                    >= checked.counts.files_deleted);
            }
        },
    }
}

/// Counts of deleted files do not fall.
proof fn lemma_deleted_grows(
    s: SyncState,
    dir: TupId,
    rows: Seq<RowText>,
    entries: Seq<FsNode>,
    n: nat,
)
    ensures
        s.entries(dir, rows, entries, n).counts.files_deleted >= s.counts.files_deleted,
    decreases entries, n, 1nat,
{
    if 0 < n && n <= entries.len() {
        lemma_deleted_grows(s, dir, rows, entries, (n - 1) as nat);
        lemma_one_entry_deleted(s, dir, rows, entries, n);
    }
}

/// A file in the list is known with its time.
proof fn lemma_file_known(
    t: TablesText,
    dir: TupId,
    entries: Seq<FsNode>,
    n: nat,
    none_gone: bool,
    i: int,
)
    requires
        n <= entries.len(),
        0 <= i < n,
        entries_known(t, dir, entries, n, none_gone),
        !is_hidden(entries[i].name@),
    ensures
        t.select(dir, entries[i].name@) is Some,
        match entries[i].kind {
            FsKind::File { mtime, mtime_ns } => {
                let row = t.nodes[t.select(dir, entries[i].name@)->0];
                row.mtime == mtime && row.mtime_ns == mtime_ns
            },
            FsKind::Dir { .. } => true,
        },
    decreases n,
{
    if i < n - 1 {
        lemma_file_known(t, dir, entries, (n - 1) as nat, none_gone, i);
    }
}

/// A file with rules stays known while its directory is synchronized, or becomes
/// known because it is listed.
proof fn lemma_rules_file_synced(
    t: TablesText,
    u: TablesText,
    dir: TupId,
    entries: Seq<FsNode>,
    name: Seq<char>,
    found: Option<(i64, i64)>,
    none_gone: bool,
)
    requires
        unique_names(u.nodes),
        grown(t, u),
        times_kept(t, u, dir, entries, entries.len()),
        entries_known(u, dir, entries, entries.len(), none_gone),
        !is_hidden(name),
        time_agrees(entries, name, found),
        rules_file_known(t, dir, name, found) || is_file_listed(entries, entries.len(), name),
    ensures
        rules_file_known(u, dir, name, found),
{
    if found is Some {
        if is_file_listed(entries, entries.len(), name) {
            let i = choose|i: int|
                0 <= i < entries.len() && (#[trigger] entries[i]).name@ == name
                    && entries[i].kind is File;
            lemma_file_known(u, dir, entries, entries.len(), none_gone, i);
        } else {
            let id = t.select(dir, name)->0;
            assert(is_named(t.nodes, dir, name, id));
            assert(t.nodes.dom().contains(id));
            assert(is_named(u.nodes, dir, name, id));
            a_name_finds_its_node(u.nodes, dir, name, id);
        }
    }
}

/// The row of a name that is not among the first entries is the one from the
/// start.
proof fn lemma_row_is_current(
    t: TablesText,
    u: TablesText,
    dir: TupId,
    entries: Seq<FsNode>,
    n: nat,
    name: Seq<char>,
)
    requires
        unique_names(t.nodes),
        unique_names(u.nodes),
        grown(t, u),
        others_kept(t, u, dir, entries, n),
        !is_virtual(name),
        forall|j: int| 0 <= j < n ==> (#[trigger] entries[j]).name@ != name,
    ensures
        row_is_current(u, dir, t.rows_in(dir), name),
{
    lemma_row_named(t, dir, name);
    match t.select(dir, name) {
        Some(id) => {
            assert(is_named(t.nodes, dir, name, id));
            assert(u.nodes.dom().contains(id));
            assert(is_named(u.nodes, dir, name, id));
            a_name_finds_its_node(u.nodes, dir, name, id);
        },
        None => {
            if u.select(dir, name) is Some {
                let id = u.select(dir, name)->0;
                assert(is_named(u.nodes, dir, name, id));
                assert(u.nodes.dom().contains(id));
                assert(is_named(t.nodes, dir, name, id));
            }
        },
    }
}

/// What one entry changes is kept apart from what the others changed.
proof fn lemma_entry_added(
    t: TablesText,
    u: TablesText,
    v: TablesText,
    dir: TupId,
    entries: Seq<FsNode>,
    n: nat,
    depth: nat,
    none_gone: bool,
)
    requires
        0 < n <= entries.len(),
        is_tree(t.nodes),
        steps_up(t.nodes, dir, dot(), depth),
        change_below(t, u, dir),
        change_below(u, v, dir),
        only_inside(u, v, dir, entries[n - 1].name@),
        !is_hidden(entries[n - 1].name@),
        forall|j: int| 0 <= j < n - 1 ==> (#[trigger] entries[j]).name@ != entries[n - 1].name@,
        entries_known(u, dir, entries, (n - 1) as nat, none_gone),
        others_kept(t, u, dir, entries, (n - 1) as nat),
        times_kept(t, u, dir, entries, (n - 1) as nat),
        entries[n - 1].kind is Dir ==> forall|x: TupId| #[trigger]
            u.nodes.dom().contains(x) && u.nodes[x].dir == dir ==> v.nodes[x].mtime
                == u.nodes[x].mtime && v.nodes[x].mtime_ns == u.nodes[x].mtime_ns,
    ensures
        change_below(t, v, dir),
        entries_known(v, dir, entries, (n - 1) as nat, none_gone),
        others_kept(t, v, dir, entries, n),
        times_kept(t, v, dir, entries, n),
{
    let name = entries[n - 1].name@;
    lemma_changes_add(t, u, v, dir);
    lemma_steps_grow(t, v, dir, dot(), depth);
    lemma_others_known(u, v, dir, name, entries, (n - 1) as nat, depth, none_gone);
    assert forall|x: TupId| #[trigger]
        v.nodes.dom().contains(x) && v.nodes[x].dir == dir && !is_listed(
            entries,
            n,
            v.nodes[x].name,
        ) implies t.nodes.dom().contains(x) && v.nodes[x] == t.nodes[x] by {
        if v.nodes[x].name == name {
            assert(entries[n - 1].name@ == v.nodes[x].name);
        }
        lemma_not_inside(v.nodes, x, dir, name, depth);
        assert(u.nodes.dom().contains(x));
        if is_listed(entries, (n - 1) as nat, u.nodes[x].name) {
            let i = choose|i: int|
                0 <= i < n - 1 && (#[trigger] entries[i]).name@ == u.nodes[x].name;
            assert(entries[i].name@ == v.nodes[x].name);
        }
    }
    assert forall|x: TupId| #[trigger]
        t.nodes.dom().contains(x) && t.nodes[x].dir == dir && !is_file_listed(
            entries,
            n,
            t.nodes[x].name,
        ) implies v.nodes[x].mtime == t.nodes[x].mtime && v.nodes[x].mtime_ns
        == t.nodes[x].mtime_ns by {
        if is_file_listed(entries, (n - 1) as nat, t.nodes[x].name) {
            let i = choose|i: int|
                0 <= i < n - 1 && (#[trigger] entries[i]).name@ == t.nodes[x].name
                    && entries[i].kind is File;
            assert(is_file_listed(entries, n, t.nodes[x].name));
        }
        assert(u.nodes.dom().contains(x));
        assert(v.nodes.dom().contains(x));
        if entries[n - 1].kind is File {
            if t.nodes[x].name == name {
                assert(entries[n - 1].name@ == t.nodes[x].name);
            }
            lemma_not_inside(v.nodes, x, dir, name, depth);
        }
    }
}

proof fn lemma_entries_synced(
    s: SyncState,
    dir: TupId,
    entries: Seq<FsNode>,
    n: nat,
    depth: nat,
    none_gone: bool,
)
    requires
        s.error is None,
        n <= entries.len(),
        is_tree(s.world.tables.nodes),
        steps_up(s.world.tables.nodes, dir, dot(), depth),
        is_steady(entries, n),
        s.entries(dir, s.world.tables.rows_in(dir), entries, n).error is None,
        none_gone ==> s.entries(
            dir,
            s.world.tables.rows_in(dir),
            entries,
            n,
        ).counts.files_deleted == 0,
    ensures
        ({
            let t = s.world.tables;
            let after = s.entries(dir, t.rows_in(dir), entries, n);
            let u = after.world.tables;
            &&& change_below(t, u, dir)
            &&& entries_known(u, dir, entries, n, none_gone)
            &&& others_kept(t, u, dir, entries, n)
            &&& times_kept(t, u, dir, entries, n)
            &&& s.world.cache.entries.dom().subset_of(after.world.cache.entries.dom())
        }),
    decreases entries, n,
{
    let t = s.world.tables;
    let rows = t.rows_in(dir);
    lemma_marked(t, t, dir);
    if n > 0 {
        let before = s.entries(dir, rows, entries, (n - 1) as nat);
        let after = s.entries(dir, rows, entries, n);
        let e = entries[n - 1];
        let name = e.name@;
        let u = before.world.tables;
        let v = after.world.tables;
        lemma_one_entry_deleted(s, dir, rows, entries, n);
        lemma_entries_synced(s, dir, entries, (n - 1) as nat, depth, none_gone);
        if is_hidden(name) {
            assert forall|x: TupId| #[trigger]
                v.nodes.dom().contains(x) && v.nodes[x].dir == dir && !is_listed(
                    entries,
                    n,
                    v.nodes[x].name,
                ) implies t.nodes.dom().contains(x) && v.nodes[x] == t.nodes[x] by {
                if is_listed(entries, (n - 1) as nat, v.nodes[x].name) {
                    let i = choose|i: int|
                        0 <= i < n - 1 && (#[trigger] entries[i]).name@ == v.nodes[x].name;
                    assert(entries[i].name@ == v.nodes[x].name);
                }
            }
            assert forall|x: TupId| #[trigger]
                t.nodes.dom().contains(x) && t.nodes[x].dir == dir && !is_file_listed(
                    entries,
                    n,
                    t.nodes[x].name,
                ) implies v.nodes[x].mtime == t.nodes[x].mtime && v.nodes[x].mtime_ns
                == t.nodes[x].mtime_ns by {
                if is_file_listed(entries, (n - 1) as nat, t.nodes[x].name) {
                    let i = choose|i: int|
                        0 <= i < n - 1 && (#[trigger] entries[i]).name@ == t.nodes[x].name
                            && entries[i].kind is File;
                    assert(is_file_listed(entries, n, t.nodes[x].name));
                }
            }
        } else {
            lemma_row_is_current(t, u, dir, entries, (n - 1) as nat, name);
            lemma_steps_grow(t, u, dir, dot(), depth);
            match e.kind {
                FsKind::File { mtime, mtime_ns } => {
                    lemma_file_step(before, dir, rows, name, mtime, mtime_ns);
                    lemma_entry_added(t, u, v, dir, entries, n, depth, none_gone);
                },
                FsKind::Dir { tupfile, tupfile_lua, entries: sub } => {
                    assert(decreases_to!(entries => entries[n - 1]));
                    let (mid, node) = before.dir_node(dir, rows, name);
                    lemma_dir_node_step(before, dir, rows, name);
                    let w = mid.world.tables;
                    let id = w.select(dir, name)->0;
                    if node is None {
                        lemma_changed_is_inside(u, w, dir, name, id);
                        lemma_entry_added(t, u, v, dir, entries, n, depth, none_gone);
                    } else {
                        let checked = mid.rules_files(id, tupfile, tupfile_lua);
                        lemma_rules_step(mid, id, tupfile, tupfile_lua);
                        let c = checked.world.tables;
                        assert(steps_up(w.nodes, dir, dot(), depth)) by {
                            lemma_steps_grow(u, w, dir, dot(), depth);
                        }
                        assert(steps_up(w.nodes, id, dot(), depth + 1));
                        lemma_steps_grow(w, c, id, dot(), depth + 1);
                        lemma_dir_synced(checked, id, sub@, depth + 1, none_gone);
                        lemma_changes_add(w, c, v, id);
                        lemma_sub_change(u, w, v, dir, name, id, depth);
                        lemma_entry_added(t, u, v, dir, entries, n, depth, none_gone);
                        assert(w.nodes.dom().contains(id));
                        assert(is_named(v.nodes, dir, name, id));
                        a_name_finds_its_node(v.nodes, dir, name, id);
                        reveal_strlit("Tupfile");
                        reveal_strlit("Tupfile.lua");
                        lemma_rules_file_synced(c, v, id, sub@, "Tupfile"@, tupfile, none_gone);
                        lemma_rules_file_synced(
                            c,
                            v,
                            id,
                            sub@,
                            "Tupfile.lua"@,
                            tupfile_lua,
                            none_gone,
                        );
                    }
                },
            }
        }
    }
}

/// A change of a directory and then of what is below it.
proof fn lemma_sub_change(
    u: TablesText,
    w: TablesText,
    v: TablesText,
    dir: TupId,
    name: Seq<char>,
    id: TupId,
    depth: nat,
)
    requires
        is_tree(u.nodes),
        change_below(u, w, dir),
        change_below(w, v, id),
        steps_up(u.nodes, dir, dot(), depth),
        is_named(w.nodes, dir, name, id),
        forall|x: TupId| #[trigger]
            w.nodes.dom().contains(x) && x != id ==> u.nodes.dom().contains(x) && w.nodes[x]
                == u.nodes[x],
        u.nodes.dom().contains(id) ==> w.nodes[id].mtime == u.nodes[id].mtime
            && w.nodes[id].mtime_ns == u.nodes[id].mtime_ns,
    ensures
        change_below(u, v, dir),
        only_inside(u, v, dir, name),
        forall|x: TupId| #[trigger]
            u.nodes.dom().contains(x) && u.nodes[x].dir == dir ==> v.nodes[x].mtime
                == u.nodes[x].mtime && v.nodes[x].mtime_ns == u.nodes[x].mtime_ns,
{
    assert(w.nodes.dom().contains(id));
    assert(is_named(v.nodes, dir, name, id));
    lemma_at_itself(v.nodes, dir);
    lemma_child_below(v.nodes, id, dir);
    lemma_change_widens(w, v, id, dir);
    lemma_changes_add(u, w, v, dir);
    lemma_steps_grow(u, v, dir, dot(), depth);
    lemma_at_itself(v.nodes, id);
    assert forall|x: TupId| #[trigger]
        v.nodes.dom().contains(x) && !is_inside(v.nodes, x, dir, name) implies
        u.nodes.dom().contains(x) && v.nodes[x] == u.nodes[x] by {
        if at_or_below(v.nodes, v.nodes[x].dir, id) {
            lemma_child_below(v.nodes, x, id);
            assert(is_inside(v.nodes, x, dir, name));
        }
        if x == id {
            assert(is_inside(v.nodes, id, dir, name));
        }
        assert(w.nodes.dom().contains(x));
    }
    assert forall|x: TupId| #[trigger]
        u.nodes.dom().contains(x) && u.nodes[x].dir == dir implies v.nodes[x].mtime
        == u.nodes[x].mtime && v.nodes[x].mtime_ns == u.nodes[x].mtime_ns by {
        assert(w.nodes.dom().contains(x));
        assert(v.nodes.dom().contains(x));
        lemma_not_below_child(v.nodes, dir, id, depth);
    }
}

/// After a synchronization the database knows a directory as it is on disk.
proof fn lemma_dir_synced(
    s: SyncState,
    dir: TupId,
    entries: Seq<FsNode>,
    depth: nat,
    none_gone: bool,
)
    requires
        s.error is None,
        is_tree(s.world.tables.nodes),
        steps_up(s.world.tables.nodes, dir, dot(), depth),
        is_steady(entries, entries.len()),
        s.dir(dir, entries).error is None,
        none_gone ==> s.dir(dir, entries).counts.files_deleted == 0,
    ensures
        ({
            let t = s.world.tables;
            let after = s.dir(dir, entries);
            let u = after.world.tables;
            &&& change_below(t, u, dir)
            &&& dir_known(u, dir, entries, none_gone)
            &&& times_kept(t, u, dir, entries, entries.len())
            &&& s.world.cache.entries.dom().subset_of(after.world.cache.entries.dom())
        }),
    decreases entries, entries.len() + 1,
{
    let t = s.world.tables;
    let rows = t.rows_in(dir);
    let mid = s.entries(dir, rows, entries, entries.len());
    let after = s.dir(dir, entries);
    let u = mid.world.tables;
    let v = after.world.tables;
    lemma_gone_step(mid, rows, entries);
    lemma_entries_synced(s, dir, entries, entries.len(), depth, none_gone);
    lemma_marked(u, v, dir);
    lemma_changes_add(t, u, v, dir);
    lemma_entries_kept(u, v, dir, entries, entries.len(), none_gone);
    let ids = ascending(nodes_in(t.nodes, dir));
    ascending_lists(nodes_in(t.nodes, dir));
    assert forall|id: TupId| #[trigger]
        v.nodes.dom().contains(id) && v.nodes[id].dir == dir && is_gone(
            v.nodes[id],
            entries,
        ) implies !none_gone && (v.flags)(TupFlags::Modify).contains(id) by {
        if is_listed(entries, entries.len(), u.nodes[id].name) {
            let i = choose|i: int|
                0 <= i < entries.len() && (#[trigger] entries[i]).name@ == u.nodes[id].name;
            assert(is_on_disk(entries, v.nodes[id].name));
        }
        assert(u.nodes.dom().contains(id));
        assert(t.nodes.dom().contains(id));
        assert(nodes_in(t.nodes, dir).contains(id));
        assert(ids.contains(id));
        let i = choose|i: int| 0 <= i < ids.len() && ids[i] == id;
        assert(rows[i] == t.nodes[id]);
        assert(is_gone(rows[i], entries));
    }
}

/// A database that was synchronized with a tree knows the tree.
pub proof fn a_synchronized_tree_is_known(s: SyncState, entries: Seq<FsNode>, none_gone: bool)
    requires
        s.error is None,
        is_tree(s.world.tables.nodes),
        is_steady(entries, entries.len()),
        s.dir(dot(), entries).error is None,
        none_gone ==> s.dir(dot(), entries).counts.files_deleted == 0,
    ensures
        is_tree(s.dir(dot(), entries).world.tables.nodes),
        dir_known(s.dir(dot(), entries).world.tables, dot(), entries, none_gone),
{
    assert(steps_up(s.world.tables.nodes, dot(), dot(), 0));
    lemma_dir_synced(s, dot(), entries, 0, none_gone);
}

/// To synchronize a project again, with a tree that stayed as it was, succeeds,
/// changes nothing, and finds nothing that was added or modified. It finds
/// nothing that was deleted if nothing was deleted before.
pub proof fn synchronizing_again_changes_nothing(
    db: DbText,
    cache: CacheText,
    entries: Seq<FsNode>,
)
    requires
        is_tree(db.tables.nodes),
        is_steady(entries, entries.len()),
        synced(db, cache, entries).2 is Ok,
    ensures
        ({
            let (d, c, first) = synced(db, cache, entries);
            let (d2, c2, second) = synced(d, c, entries);
            &&& d2 == d
            &&& c2 == c
            &&& second is Ok
            &&& same_changes(second->Ok_0, no_counts())
            &&& first->Ok_0.files_deleted == 0 ==> second->Ok_0.files_deleted == 0
        }),
{
    let (d, c, first) = synced(db, cache, entries);
    let (loaded, r) = cache.load(db.tables.nodes, dot());
    let s = SyncState {
        world: World { tables: db.tables, cache: loaded },
        counts: no_counts(),
        error: None,
    };
    let none_gone = first->Ok_0.files_deleted == 0;
    lemma_loaded(cache, db.tables.nodes, dot());
    assert(steps_up(s.world.tables.nodes, dot(), dot(), 0));
    lemma_dir_synced(s, dot(), entries, 0, none_gone);
    let walked = s.dir(dot(), entries);
    let gone = missing(walked.world.tables, dot(), entries, false, false);
    no_file_is_missing(walked.world, entries, none_gone);
    let again = SyncState {
        world: World { tables: d.tables, cache: c },
        counts: no_counts(),
        error: None,
    };
    assert(again.world == walked.world.sweep(gone));
    known_files_change_nothing(again, dot(), entries, none_gone);
    nothing_to_remove(again.world, missing(d.tables, dot(), entries, false, false));
}

/// After a synchronization no file of the database is missing from the disk: a
/// file that was deleted, or that was in a directory that was deleted, is removed
/// or a ghost.
pub proof fn deleted_files_leave_the_database(db: DbText, cache: CacheText, entries: Seq<FsNode>)
    requires
        is_tree(db.tables.nodes),
        is_steady(entries, entries.len()),
        synced(db, cache, entries).2 is Ok,
    ensures
        ({
            let nodes = synced(db, cache, entries).0.tables.nodes;
            let tables = synced(db, cache, entries).0.tables;
            &&& forall|x: TupId| #[trigger]
                nodes.dom().contains(x) && below_some(
                    nodes,
                    x,
                    missing(tables, dot(), entries, false, false),
                ) ==> nodes[x].node_type != NodeType::File
            &&& forall|x: TupId| #[trigger]
                nodes.dom().contains(x) && nodes[x].dir == dot() && !is_virtual(nodes[x].name)
                    && !is_on_disk(entries, nodes[x].name) ==> nodes[x].node_type != NodeType::File
        }),
{
    let (loaded, r) = cache.load(db.tables.nodes, dot());
    let s = SyncState {
        world: World { tables: db.tables, cache: loaded },
        counts: no_counts(),
        error: None,
    };
    assert(steps_up(s.world.tables.nodes, dot(), dot(), 0));
    lemma_dir_synced(s, dot(), entries, 0, false);
    let walked = s.dir(dot(), entries);
    no_file_is_missing(walked.world, entries, false);
    let t = synced(db, cache, entries).0.tables;
    let list = missing(t, dot(), entries, false, false);
    assert forall|x: TupId| #[trigger]
        t.nodes.dom().contains(x) && below_some(t.nodes, x, list) implies t.nodes[x].node_type
        != NodeType::File by {
        assert(!files_below(t.nodes, list).contains(x));
    }
    assert forall|x: TupId| #[trigger]
        t.nodes.dom().contains(x) && t.nodes[x].dir == dot() && !is_virtual(t.nodes[x].name)
            && !is_on_disk(entries, t.nodes[x].name) implies t.nodes[x].node_type
        != NodeType::File by {
        if t.nodes[x].node_type == NodeType::File {
            what_is_gone_is_missing(t, entries, x);
            lemma_at_itself(t.nodes, x);
            assert(below_some(t.nodes, x, list));
        }
    }
}

/// A node that was loaded is in the cache.
proof fn lemma_loaded(cache: CacheText, nodes: Map<TupId, RowText>, id: TupId)
    requires
        cache.load(nodes, id).1 is Ok,
    ensures
        cache.load(nodes, id).0.entries.dom().contains(id),
        cache.entries.dom().subset_of(cache.load(nodes, id).0.entries.dom()),
    decreases 0x1_0000_0000_0000_0000 - cache.entries.dom().len(),
{
    if !cache.entries.dom().contains(id) {
        let with = cache.add(fresh(RowText { id, ..nodes[id] }));
        let parent = nodes[id].dir;
        ids_are_finite(cache.entries.dom());
        ids_are_finite(with.entries.dom());
        assert(with.entries.dom() =~= cache.entries.dom().insert(id));
        if parent.0 > 0 && !with.entries.dom().contains(parent) {
            lemma_loaded(with, nodes, parent);
        }
    }
}

// ------------------------------------------------ what a change leads to

/// A file that changed is modified, and so is every command that it is an input
/// of.
pub proof fn changed_files_reach_their_commands(
    s: SyncState,
    dir: TupId,
    rows: Seq<RowText>,
    name: Seq<char>,
    mtime: i64,
    mtime_ns: i64,
    cmd: TupId,
)
    requires
        row_named(rows, name) is Some,
        row_named(rows, name)->0.node_type != NodeType::GhostNode,
        row_named(rows, name)->0.mtime != mtime || row_named(rows, name)->0.mtime_ns != mtime_ns,
    ensures
        ({
            let id = row_named(rows, name)->0.id;
            let t = s.file(dir, rows, name, mtime, mtime_ns).world.tables;
            &&& (t.flags)(TupFlags::Modify).contains(id)
            &&& s.world.tables.sticky.contains((id, cmd)) ==> (t.flags)(
                TupFlags::Modify,
            ).contains(cmd)
        }),
{
    let id = row_named(rows, name)->0.id;
    if s.world.tables.sticky.contains((id, cmd)) {
        assert(outs(s.world.tables.sticky, id).contains(cmd));
    }
}

/// A directory with a new or changed file of rules is to be parsed.
pub proof fn new_rules_lead_to_parsing(
    s: SyncState,
    dir: TupId,
    rows: Seq<RowText>,
    name: Seq<char>,
    mtime: i64,
    mtime_ns: i64,
)
    requires
        is_tupfile(name),
        row_named(rows, name) is None || (row_named(rows, name)->0.node_type
            != NodeType::GhostNode && (row_named(rows, name)->0.mtime != mtime || row_named(
            rows,
            name,
        )->0.mtime_ns != mtime_ns)),
        s.error is None,
        s.file(dir, rows, name, mtime, mtime_ns).error is None,
    ensures
        (s.file(dir, rows, name, mtime, mtime_ns).world.tables.flags)(TupFlags::Create).contains(
            dir,
        ),
{
}

// ------------------------------------------------ what a deleted file leads to

/// Whether the links of nodes are the same.
spec fn same_links(a: TablesText, b: TablesText) -> bool {
    a.normal == b.normal && a.sticky == b.sticky
}

proof fn lemma_gone_links(s: SyncState, rows: Seq<RowText>, entries: Seq<FsNode>)
    ensures
        same_links(s.gone(rows, entries).world.tables, s.world.tables),
    decreases rows.len(),
{
    if rows.len() > 0 {
        lemma_gone_links(s, rows.drop_last(), entries);
    }
}

proof fn lemma_file_links(
    s: SyncState,
    dir: TupId,
    rows: Seq<RowText>,
    name: Seq<char>,
    mtime: i64,
    mtime_ns: i64,
)
    ensures
        same_links(s.file(dir, rows, name, mtime, mtime_ns).world.tables, s.world.tables),
{
}

proof fn lemma_dir_node_links(s: SyncState, dir: TupId, rows: Seq<RowText>, name: Seq<char>)
    ensures
        same_links(s.dir_node(dir, rows, name).0.world.tables, s.world.tables),
{
}

proof fn lemma_rules_links(
    s: SyncState,
    dir: TupId,
    tupfile: Option<(i64, i64)>,
    tupfile_lua: Option<(i64, i64)>,
)
    ensures
        same_links(s.rules_files(dir, tupfile, tupfile_lua).world.tables, s.world.tables),
{
}

/// Synchronizing makes and removes no links before deleted files go.
proof fn lemma_walk_links(
    s: SyncState,
    dir: TupId,
    rows: Seq<RowText>,
    entries: Seq<FsNode>,
    n: nat,
)
    requires
        n <= entries.len(),
    ensures
        same_links(s.entries(dir, rows, entries, n).world.tables, s.world.tables),
    decreases entries, n,
{
    if n > 0 {
        lemma_walk_links(s, dir, rows, entries, (n - 1) as nat);
        let before = s.entries(dir, rows, entries, (n - 1) as nat);
        let e = entries[n - 1];
        match e.kind {
            FsKind::File { mtime, mtime_ns } => {
                lemma_file_links(before, dir, rows, e.name@, mtime, mtime_ns);
            },
            FsKind::Dir { tupfile, tupfile_lua, entries: sub } => {
                let (mid, node) = before.dir_node(dir, rows, e.name@);
                lemma_dir_node_links(before, dir, rows, e.name@);
                if node is Some {
                    let checked = mid.rules_files(node->0, tupfile, tupfile_lua);
                    lemma_rules_links(mid, node->0, tupfile, tupfile_lua);
                    let sub_rows = checked.world.tables.rows_in(node->0);
                    assert(decreases_to!(entries => entries[n - 1]));
                    lemma_walk_links(checked, node->0, sub_rows, sub@, sub@.len());
                    lemma_gone_links(
                        checked.entries(node->0, sub_rows, sub@, sub@.len()),
                        sub_rows,
                        sub@,
                    );
                    assert(same_links(checked.dir(node->0, sub@).world.tables, s.world.tables));
                }
            },
        }
    }
}

/// A file in the top directory that was deleted is removed or a ghost after a
/// synchronization. Every command and group that used it is to run, and the
/// directory is to be parsed.
pub proof fn deleted_files_reach_their_users(
    db: DbText,
    cache: CacheText,
    entries: Seq<FsNode>,
    file: TupId,
)
    requires
        is_tree(db.tables.nodes),
        is_steady(entries, entries.len()),
        synced(db, cache, entries).2 is Ok,
        db.tables.nodes.dom().contains(file),
        db.tables.nodes[file].dir == dot(),
        db.tables.nodes[file].node_type == NodeType::File,
        !is_virtual(db.tables.nodes[file].name),
        !is_on_disk(entries, db.tables.nodes[file].name),
    ensures
        ({
            let t = synced(db, cache, entries).0.tables;
            &&& t.nodes.dom().contains(file) ==> t.nodes[file].node_type == NodeType::GhostNode
            &&& forall|cmd: TupId| #[trigger]
                db.tables.users(file).contains(cmd) ==> (t.flags)(TupFlags::Modify).contains(cmd)
            &&& (t.flags)(TupFlags::Create).contains(dot())
        }),
{
    let (loaded, r) = cache.load(db.tables.nodes, dot());
    let s = SyncState {
        world: World { tables: db.tables, cache: loaded },
        counts: no_counts(),
        error: None,
    };
    assert(steps_up(s.world.tables.nodes, dot(), dot(), 0));
    lemma_dir_synced(s, dot(), entries, 0, false);
    let rows = db.tables.rows_in(dot());
    lemma_walk_links(s, dot(), rows, entries, entries.len());
    lemma_gone_links(s.entries(dot(), rows, entries, entries.len()), rows, entries);
    let walked = s.dir(dot(), entries);
    let u = walked.world.tables;
    let gone = missing(u, dot(), entries, false, false);
    let t = synced(db, cache, entries).0.tables;
    assert(same_links(u, db.tables));
    assert(u.nodes.dom().contains(file));
    what_is_gone_is_missing(u, entries, file);
    lemma_at_itself(u.nodes, file);
    assert(below_some(u.nodes, file, gone));
    assert(files_below(u.nodes, gone).contains(file));
    only_files_go(walked.world, gone);
    assert forall|cmd: TupId| #[trigger] db.tables.users(file).contains(cmd) implies (t.flags)(
        TupFlags::Modify,
    ).contains(cmd) by {
        assert(db.tables.nodes.dom().contains(cmd));
        assert(u.users(file).contains(cmd));
        users_of_deleted_files_run(walked.world, gone, file, cmd);
    }
    no_file_is_missing(walked.world, entries, false);
    assert(!files_below(u.nodes, gone).contains(dot())) by {
        if files_below(u.nodes, gone).contains(dot()) {
            top_is_not_missing(u, entries);
        }
    }
    directories_of_deleted_files_are_parsed(walked.world, gone, file);
}

} // verus!
