//! What holds of the steps by which the database follows the disk.
use vstd::prelude::*;

use crate::db::errors::DbErrorText;
use crate::db::laws::{a_new_node_is_found, lemma_edited};
use crate::db::links::nodes_in;
use crate::db::rows::{is_named, rows_at, unique_names, RowText};
use crate::db::store_laws::{a_name_finds_its_node, lemma_found, new_identifier_is_new};
use crate::db::sync::{
    arranged, arranged_entries_are_in_order, is_missing, is_on_disk, is_virtual, missing,
    missing_below, missing_rows, one_more, row_named, DirText, FsNode, SyncState,
};
use crate::db::tables::{outs, TablesText, TupFlags};
use crate::ids::{ascending, ascending_lists};
use crate::types::{NodeType, TupId};

verus! {

/// A name that is not one of the reserved ones finds a row that has it; a reserved one finds
/// none.
pub proof fn rows_are_found_by_name(rows: Seq<RowText>, name: Seq<char>)
    ensures
        match row_named(rows, name) {
            Some(r) => rows.contains(r) && r.name == name && !is_virtual(name),
            None => is_virtual(name) || forall|i: int|
                0 <= i < rows.len() ==> (#[trigger] rows[i]).name != name,
        },
    decreases rows.len(),
{
    if rows.len() > 0 {
        let before = rows.drop_last();
        rows_are_found_by_name(before, name);
        assert(rows[rows.len() - 1] == rows.last());
        match row_named(before, name) {
            Some(r) => {
                let i = choose|i: int| 0 <= i < before.len() && before[i] == r;
                assert(rows[i] == r);
            },
            None => {
                assert forall|i: int| 0 <= i < before.len() implies before[i]
                    == #[trigger] rows[i] by {}
            },
        }
    }
}

/// A file on disk that no row has gets a node with its time. Its directory is to be parsed,
/// and one more file counts as added.
pub proof fn a_new_file_is_added(
    s: SyncState,
    dir: TupId,
    rows: Seq<RowText>,
    name: Seq<char>,
    mtime: i64,
    mtime_ns: i64,
)
    requires
        unique_names(s.world.tables.nodes),
        s.error is None,
        row_named(rows, name) is None,
        s.file(dir, rows, name, mtime, mtime_ns).error is None,
    ensures
        ({
            let u = s.file(dir, rows, name, mtime, mtime_ns);
            let t = u.world.tables;
            &&& t.select(dir, name) matches Some(id) && {
                &&& !s.world.tables.nodes.dom().contains(id)
                &&& t.nodes[id].node_type == NodeType::File
                &&& t.nodes[id].mtime == mtime && t.nodes[id].mtime_ns == mtime_ns
            }
            &&& forall|x: TupId| #[trigger]
                s.world.tables.nodes.dom().contains(x) ==> t.nodes.dom().contains(x) && t.nodes[x]
                    == s.world.tables.nodes[x]
            &&& (t.flags)(TupFlags::Create).contains(dir)
            &&& (t.flags)(TupFlags::Modify) == (s.world.tables.flags)(TupFlags::Modify)
            &&& u.counts.files_added == one_more(s.counts.files_added)
            &&& u.counts.files_modified == s.counts.files_modified
            &&& u.counts.files_deleted == s.counts.files_deleted
            &&& t.normal == s.world.tables.normal && t.sticky == s.world.tables.sticky
        }),
{
    let t = s.world.tables;
    new_identifier_is_new(t.nodes);
    a_new_node_is_found(t, dir, name, NodeType::File, mtime, mtime_ns, -1i64, None, None);
    let row = t.new_row(dir, name, NodeType::File, mtime, mtime_ns, -1i64, None, None)->Ok_0;
    let u = s.file(dir, rows, name, mtime, mtime_ns).world.tables;
    assert(u.nodes == t.put(row).nodes);
}

/// A file on disk that is known: nothing changes where its time is the same; else it has the
/// new time, it and what it is an input of are marked as modified, and one more file counts
/// as modified. A ghost becomes a file.
pub proof fn a_known_file_is_compared(
    s: SyncState,
    dir: TupId,
    rows: Seq<RowText>,
    name: Seq<char>,
    mtime: i64,
    mtime_ns: i64,
    row: RowText,
)
    requires
        unique_names(s.world.tables.nodes),
        row_named(rows, name) == Some(row),
        s.world.tables.nodes.dom().contains(row.id),
        s.world.tables.nodes[row.id] == row,
    ensures
        ({
            let u = s.file(dir, rows, name, mtime, mtime_ns);
            let t = u.world.tables;
            let id = row.id;
            let same = row.mtime == mtime && row.mtime_ns == mtime_ns;
            &&& row.node_type != NodeType::GhostNode && same ==> u == s
            &&& row.node_type == NodeType::GhostNode || !same ==> {
                &&& t.nodes.dom() == s.world.tables.nodes.dom()
                &&& t.nodes[id].mtime == mtime && t.nodes[id].mtime_ns == mtime_ns
                &&& t.nodes[id].name == row.name && t.nodes[id].dir == row.dir
                &&& t.nodes[id].node_type == (if row.node_type == NodeType::GhostNode {
                    NodeType::File
                } else {
                    row.node_type
                })
                &&& forall|x: TupId| #[trigger]
                    s.world.tables.nodes.dom().contains(x) && x != id ==> t.nodes[x]
                        == s.world.tables.nodes[x]
                &&& (t.flags)(TupFlags::Modify).contains(id)
                &&& u.counts.files_modified == one_more(s.counts.files_modified)
                &&& u.counts.files_added == s.counts.files_added
                &&& u.counts.files_deleted == s.counts.files_deleted
                &&& t.normal == s.world.tables.normal && t.sticky == s.world.tables.sticky
            }
            &&& row.node_type != NodeType::GhostNode && !same ==> forall|x: TupId| #[trigger]
                (t.flags)(TupFlags::Modify).contains(x) <==> x == id || (s.world.tables.flags)(
                    TupFlags::Modify,
                ).contains(x) || s.world.tables.sticky.contains((id, x))
        }),
{
    let u = s.file(dir, rows, name, mtime, mtime_ns);
    let t = u.world.tables;
    assert(row.id == s.world.tables.nodes[row.id].id);
    assert(t.nodes.dom() =~= s.world.tables.nodes.dom());
    if row.node_type != NodeType::GhostNode && (row.mtime != mtime || row.mtime_ns != mtime_ns) {
        let a = s.world.tables.set_mtime(row.id, mtime, mtime_ns).flag(row.id, TupFlags::Modify);
        let b = a.flag_dependents(row.id);
        assert(b.sticky == s.world.tables.sticky);
        assert((b.flags)(TupFlags::Modify) == (a.flags)(TupFlags::Modify));
        assert forall|x: TupId| #[trigger] (t.flags)(TupFlags::Modify).contains(x) <==> x == row.id
            || (s.world.tables.flags)(TupFlags::Modify).contains(x)
            || s.world.tables.sticky.contains((row.id, x)) by {
            assert(outs(b.sticky, row.id).contains(x) <==> b.sticky.contains((row.id, x)));
        }
    }
}

/// A directory on disk has a node: the one that is there, a ghost that becomes a directory,
/// or a new one, which counts as added. A name that belongs to something else gives none,
/// and nothing changes.
pub proof fn a_directory_has_a_node(
    s: SyncState,
    dir: TupId,
    rows: Seq<RowText>,
    name: Seq<char>,
)
    requires
        unique_names(s.world.tables.nodes),
        forall|i: int| #![trigger rows[i]]
            0 <= i < rows.len() ==> s.world.tables.nodes.dom().contains(rows[i].id)
                && s.world.tables.nodes[rows[i].id] == rows[i],
        s.dir_node(dir, rows, name).0.error is None,
    ensures
        ({
            let (u, node) = s.dir_node(dir, rows, name);
            let t = u.world.tables;
            match row_named(rows, name) {
                Some(row) => {
                    let dirs = row.node_type == NodeType::Dir || row.node_type
                        == NodeType::GeneratedDir;
                    &&& dirs || row.node_type == NodeType::GhostNode ==> node == Some(row.id)
                    &&& !dirs && row.node_type != NodeType::GhostNode ==> node is None
                    &&& row.node_type != NodeType::GhostNode ==> u == s
                    &&& row.node_type == NodeType::GhostNode ==> t.nodes[row.id].node_type
                        == NodeType::Dir && u.counts == s.counts
                },
                None => {
                    &&& node matches Some(id) && {
                        &&& !s.world.tables.nodes.dom().contains(id)
                        &&& t.select(dir, name) == Some(id)
                        &&& t.nodes[id].node_type == NodeType::Dir
                    }
                    &&& u.counts.dirs_added == one_more(s.counts.dirs_added)
                    &&& forall|x: TupId| #[trigger]
                        s.world.tables.nodes.dom().contains(x) ==> t.nodes.dom().contains(x)
                            && t.nodes[x] == s.world.tables.nodes[x]
                },
            }
        }),
{
    rows_are_found_by_name(rows, name);
    let t = s.world.tables;
    match row_named(rows, name) {
        Some(row) => {
            let i = choose|i: int| 0 <= i < rows.len() && rows[i] == row;
            assert(t.nodes.dom().contains(rows[i].id));
        },
        None => {
            new_identifier_is_new(t.nodes);
            a_new_node_is_found(t, dir, name, NodeType::Dir, -1i64, 0, -1i64, None, None);
        },
    }
}

/// Whether a row is that of a file or directory which is not on disk any more.
pub open spec fn went(row: RowText, entries: Seq<FsNode>) -> bool {
    &&& row.node_type == NodeType::File || row.node_type == NodeType::Dir
    &&& !is_virtual(row.name)
    &&& row.name.len() > 0 && row.name[0] == '.' || forall|i: int|
        0 <= i < entries.len() ==> (#[trigger] entries[i]).name@ != row.name
}

/// What is no longer on disk is marked as modified, and nothing else is.
pub proof fn what_went_is_marked(
    s: SyncState,
    rows: Seq<RowText>,
    entries: Seq<FsNode>,
    f: TupFlags,
    x: TupId,
)
    ensures
        (s.gone(rows, entries).world.tables.flags)(f).contains(x) <==> (s.world.tables.flags)(
            f,
        ).contains(x) || (f == TupFlags::Modify && exists|i: int|
            0 <= i < rows.len() && (#[trigger] rows[i]).id == x && went(rows[i], entries)),
        s.gone(rows, entries).world.tables.nodes == s.world.tables.nodes,
    decreases rows.len(),
{
    if rows.len() > 0 {
        let before = rows.drop_last();
        let n = rows.len() - 1;
        what_went_is_marked(s, before, entries, f, x);
        let row = rows.last();
        assert(rows[n] == row);
        assert(is_on_disk(entries, row.name) <==> !(row.name.len() > 0 && row.name[0] == '.')
            && exists|i: int| 0 <= i < entries.len() && (#[trigger] entries[i]).name@ == row.name);
        if exists|i: int|
            0 <= i < before.len() && (#[trigger] before[i]).id == x && went(before[i], entries) {
            let i = choose|i: int|
                0 <= i < before.len() && (#[trigger] before[i]).id == x && went(before[i], entries);
            assert(rows[i] == before[i]);
        }
        if exists|i: int|
            0 <= i < rows.len() && (#[trigger] rows[i]).id == x && went(rows[i], entries) {
            let i = choose|i: int|
                0 <= i < rows.len() && (#[trigger] rows[i]).id == x && went(rows[i], entries);
            if i < n {
                assert(before[i] == rows[i]);
            }
        }
    }
}

/// A file of rules that is there is new or changed where the database has no such file or
/// another time of it; the database has its time afterwards. A directory is to be parsed
/// for such a file, or because it was to be parsed before.
pub proof fn files_of_rules_are_compared(
    t: TablesText,
    dir: TupId,
    name: Seq<char>,
    found: Option<(i64, i64)>,
)
    requires
        unique_names(t.nodes),
        t.check_rules_file(dir, name, found).1 is Ok,
    ensures
        ({
            let (u, r) = t.check_rules_file(dir, name, found);
            &&& r->Ok_0 <==> (found matches Some(m) && match t.select(dir, name) {
                Some(id) => t.nodes[id].mtime != m.0 || t.nodes[id].mtime_ns != m.1,
                None => true,
            })
            &&& !r->Ok_0 ==> u == t
            &&& u.flags == t.flags
            &&& found matches Some(m) ==> (u.select(dir, name) matches Some(id)
                && u.nodes[id].mtime == m.0 && u.nodes[id].mtime_ns == m.1)
        }),
{
    lemma_found(t.nodes, dir, name);
    let u = t.check_rules_file(dir, name, found).0;
    if let Some(m) = found {
        match t.select(dir, name) {
            Some(id) => {
                assert(t.nodes.dom().contains(id) && t.nodes[id].id == id);
                assert(u.nodes.dom() =~= t.nodes.dom());
                lemma_edited(t, u, id);
                assert(is_named(u.nodes, dir, name, id));
                a_name_finds_its_node(u.nodes, dir, name, id);
            },
            None => {
                new_identifier_is_new(t.nodes);
                a_new_node_is_found(t, dir, name, NodeType::File, m.0, m.1, -1i64, None, None);
            },
        }
    }
}

/// The entries of a directory are all looked at but the hidden ones.
pub proof fn hidden_entries_are_left_out(s: Seq<DirText>, x: DirText)
    ensures
        arranged(s).contains(x) <==> s.contains(x) && !(x.name.len() > 0 && x.name[0] == '.'),
{
    arranged_entries_are_in_order(s);
}

/// A file of rules that changed leads to the parsing of its directory: one named `Tupfile`,
/// `Tupfile.lua` or `Tuprules.tup`. A change of any other file marks no more directories than
/// those that depend on it.
pub proof fn changed_rules_lead_to_parsing(
    s: SyncState,
    dir: TupId,
    rows: Seq<RowText>,
    name: Seq<char>,
    row: RowText,
    mtime: i64,
    mtime_ns: i64,
)
    requires
        row_named(rows, name) == Some(row),
        row.node_type != NodeType::GhostNode,
        row.mtime != mtime || row.mtime_ns != mtime_ns,
    ensures
        ({
            let u = s.file(dir, rows, name, mtime, mtime_ns).world.tables;
            let t = s.world.tables;
            &&& name == "Tupfile"@ || name == "Tupfile.lua"@ || name == "Tuprules.tup"@
                ==> (u.flags)(TupFlags::Create).contains(dir)
            &&& !(name == "Tupfile"@ || name == "Tupfile.lua"@ || name == "Tuprules.tup"@)
                && !t.normal.contains((row.id, dir)) && !(t.flags)(TupFlags::Create).contains(dir)
                ==> !(u.flags)(TupFlags::Create).contains(dir)
        }),
{
}

/// A directory with files of rules is to be parsed where one of them is new, has another time
/// than was known, or where the directory was to be parsed anyway.
pub proof fn a_directory_is_parsed_where_its_rules_changed(
    t: TablesText,
    dir: TupId,
    tupfile: Option<(i64, i64)>,
    tupfile_lua: Option<(i64, i64)>,
)
    ensures
        t.check_tupfiles(dir, tupfile, tupfile_lua).1 matches Ok(yes) ==> {
            ||| yes == (t.flags)(TupFlags::Create).contains(dir)
            ||| yes
        },
        (t.flags)(TupFlags::Create).contains(dir) ==> t.check_tupfiles(
            dir,
            tupfile,
            tupfile_lua,
        ).1 != Ok::<bool, DbErrorText>(false),
        tupfile matches Some((m, ns)) ==> (t.select(dir, "Tupfile"@) matches Some(id) ==> {
            (t.nodes[id].mtime != m || t.nodes[id].mtime_ns != ns) ==> t.check_tupfiles(
                dir,
                tupfile,
                tupfile_lua,
            ).1 == Ok::<bool, DbErrorText>(true)
        }),
        tupfile is Some && t.select(dir, "Tupfile"@) is None ==> t.check_tupfiles(
            dir,
            tupfile,
            tupfile_lua,
        ).1 != Ok::<bool, DbErrorText>(false),
        tupfile is None && tupfile_lua is None ==> t.check_tupfiles(dir, tupfile, tupfile_lua).1
            == Ok::<bool, DbErrorText>((t.flags)(TupFlags::Create).contains(dir)),
        tupfile is None ==> (tupfile_lua matches Some((m, ns)) ==> (t.select(dir, "Tupfile.lua"@)
            matches Some(id) ==> {
            (t.nodes[id].mtime != m || t.nodes[id].mtime_ns != ns) ==> t.check_tupfiles(
                dir,
                tupfile,
                tupfile_lua,
            ).1 == Ok::<bool, DbErrorText>(true)
        })),
{
}

/// What happens is counted: a new file, a changed one, a new directory, a file that went and a
/// directory that is to be parsed each add one to their count, and nothing to the others.
pub proof fn changes_are_counted(
    s: SyncState,
    dir: TupId,
    rows: Seq<RowText>,
    name: Seq<char>,
    mtime: i64,
    mtime_ns: i64,
)
    requires
        s.counts.files_added < usize::MAX,
        s.counts.files_modified < usize::MAX,
        s.counts.files_deleted < usize::MAX,
        s.counts.dirs_added < usize::MAX,
        s.counts.dirs_flagged < usize::MAX,
        name != "Tupfile"@ && name != "Tupfile.lua"@ && name != "Tuprules.tup"@,
    ensures
        ({
            let f = s.file(dir, rows, name, mtime, mtime_ns);
            let d = s.dir_node(dir, rows, name).0;
            let n = s.counts;
            &&& f.counts.files_deleted == n.files_deleted && f.counts.dirs_added == n.dirs_added
                && f.counts.dirs_flagged == n.dirs_flagged
            &&& f.error == s.error ==> match row_named(rows, name) {
                None => (s.world.tables.new_row(
                    dir,
                    name,
                    NodeType::File,
                    mtime,
                    mtime_ns,
                    -1i64,
                    None,
                    None,
                ) is Ok ==> f.counts.files_added == n.files_added + 1)
                    && f.counts.files_modified == n.files_modified,
                Some(row) => {
                    &&& f.counts.files_added == n.files_added
                    &&& f.counts.files_modified == n.files_modified + if row.node_type
                        == NodeType::GhostNode || row.mtime != mtime || row.mtime_ns != mtime_ns {
                        1int
                    } else {
                        0
                    }
                },
            }
            &&& row_named(rows, name) is None && d.error is None && s.error is None
                ==> d.counts.dirs_added == n.dirs_added + 1
            &&& row_named(rows, name) is Some ==> d.counts.dirs_added == n.dirs_added
            &&& d.counts.files_added == n.files_added && d.counts.files_modified
                == n.files_modified
            &&& s.deleted().counts.files_deleted == n.files_deleted + 1
            &&& s.to_parse(dir).counts.dirs_flagged == n.dirs_flagged + 1
        }),
{
}

proof fn lemma_missing_row(rows: Seq<RowText>, entries: Seq<FsNode>, i: int)
    requires
        0 <= i < rows.len(),
        is_missing(rows[i], entries, false, false),
    ensures
        missing_rows(rows, entries, false, false).contains(rows[i].id),
    decreases rows.len(),
{
    let before = missing_rows(rows.drop_last(), entries, false, false);
    let all = missing_rows(rows, entries, false, false);
    if i < rows.len() - 1 {
        assert(rows.drop_last()[i] == rows[i]);
        lemma_missing_row(rows.drop_last(), entries, i);
        let k = choose|k: int| 0 <= k < before.len() && before[k] == rows[i].id;
        assert(all[k] == rows[i].id);
    } else {
        assert(all[all.len() - 1] == rows[i].id);
    }
}

/// A file or a directory that the database knows right below another one, and that is not found
/// there, is missing; generated directories are found missing like others, generated files are
/// not looked for.
pub proof fn what_is_not_found_is_missing(
    t: TablesText,
    dir: TupId,
    entries: Seq<FsNode>,
    x: TupId,
)
    requires
        t.nodes.dom().contains(x),
        t.nodes[x].id == x,
        t.nodes[x].dir == dir,
        t.nodes[x].node_type == NodeType::File || t.nodes[x].node_type == NodeType::Dir
            || t.nodes[x].node_type == NodeType::GeneratedDir,
        t.nodes[x].name != "$"@ && t.nodes[x].name != "/"@ && t.nodes[x].name != "^"@,
        forall|i: int| 0 <= i < entries.len() ==> (#[trigger] entries[i]).name@ != t.nodes[x].name,
    ensures
        missing(t, dir, entries, false, false).contains(x),
{
    let s = nodes_in(t.nodes, dir);
    let ids = ascending(s);
    ascending_lists(s);
    assert(s.contains(x));
    assert(ids.contains(x));
    let k = choose|k: int| 0 <= k < ids.len() && ids[k] == x;
    let rows = t.rows_in(dir);
    assert(rows == rows_at(t.nodes, ids));
    assert(rows[k] == t.nodes[x]);
    lemma_missing_row(rows, entries, k);
    let before = missing_below(t, dir, entries, entries.len());
    let here = missing_rows(rows, entries, false, false);
    let j = choose|j: int| 0 <= j < here.len() && here[j] == x;
    assert((before + here)[before.len() + j] == x);
}

} // verus!
