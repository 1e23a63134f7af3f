//! What holds of naming directories and nodes, and of single changes of a row.
use vstd::prelude::*;

use crate::build::dirs::{
    descend, dir_id_of, linked_by_name, named_node, normal_path, path_below, tup_relative, Canonical,
};
use crate::db::tables::{TablesText, TupFlags};
use crate::numbers::{int_between, reading_what_was_written, what_is_no_number_is_refused};
use crate::paths::{components, path_join, push_all};
use crate::types::{int_text, LinkType, NodeType, TupId};

verus! {

/// A path that a user gave is seen from the root of the project where it lies below it, by its
/// name or, where the name does not say so, by the canonical forms of both; else it is outside.
pub proof fn paths_are_seen_from_the_root(
    cwd: Seq<char>,
    root: Seq<char>,
    path: Seq<char>,
    known: Canonical,
    known_root: Canonical,
    rest: Seq<Seq<char>>,
)
    ensures
        ({
            let full = components(normal_path(path_join(cwd, path)));
            let r = tup_relative(cwd, root, path, known, known_root);
            let named = components(root).is_prefix_of(full);
            &&& full == components(root) + rest ==> r == Some(push_all(Seq::empty(), rest))
            &&& !named ==> match (known.whole, known_root.whole) {
                (Some(p), Some(q)) => {
                    &&& components(p@) == components(q@) + rest ==> r == Some(
                        push_all(Seq::empty(), rest),
                    )
                    &&& !components(q@).is_prefix_of(components(p@)) ==> r is None
                },
                _ => true,
            }
            &&& !named && known.whole is None && known.parent is None ==> r is None
        }),
{
    let full = normal_path(path_join(cwd, path));
    lemma_below(full, root, rest);
    if let (Some(p), Some(q)) = (known.whole, known_root.whole) {
        lemma_below(p@, q@, rest);
    }
}

proof fn lemma_below(path: Seq<char>, dir: Seq<char>, rest: Seq<Seq<char>>)
    ensures
        components(path) == components(dir) + rest ==> path_below(path, dir) == Some(
            push_all(Seq::empty(), rest),
        ),
        path_below(path, dir) is Some <==> components(dir).is_prefix_of(components(path)),
{
    let d = components(dir);
    let p = components(path);
    if p == d + rest {
        assert(p.subrange(0, d.len() as int) =~= d);
        assert(p.skip(d.len() as int) =~= rest);
    }
}

/// The top directory is named by nothing and by `.`, every directory by its number, and a
/// directory below the top by the names on the way down to it.
pub proof fn directories_are_named(t: TablesText, n: i64, path: Seq<char>)
    requires
        path.len() > 0,
        path != "."@,
        int_between(path, i64::MIN as int, i64::MAX as int) is Err,
    ensures
        dir_id_of(t, Seq::empty()) == Some(TupId(1)),
        dir_id_of(t, "."@) == Some(TupId(1)),
        dir_id_of(t, int_text(n as int)) == Some(TupId(n)),
        dir_id_of(t, path) == descend(t, TupId(1), components(path)),
{
    reading_what_was_written(n as int, i64::MIN as int, i64::MAX as int);
    reveal_strlit(".");
    what_is_no_number_is_refused("."@, i64::MIN as int, i64::MAX as int, 0);
}

/// A node is named by its directory and its name in it; whether two nodes are linked is asked
/// of the nodes that their names find, and is an error where one of them is not found.
pub proof fn nodes_are_named(
    t: TablesText,
    dir1: Seq<char>,
    name1: Seq<char>,
    dir2: Seq<char>,
    name2: Seq<char>,
    l: LinkType,
)
    ensures
        dir_id_of(t, dir1) matches Some(d) ==> match t.select(d, name1) {
            Some(id) => named_node(t, dir1, name1) == Ok::<TupId, Seq<char>>(id),
            None => named_node(t, dir1, name1) is Err,
        },
        dir_id_of(t, dir1) is None ==> named_node(t, dir1, name1) is Err,
        match (named_node(t, dir1, name1), named_node(t, dir2, name2)) {
            (Ok(a), Ok(b)) => linked_by_name(t, dir1, name1, dir2, name2, l) == Ok::<
                bool,
                Seq<char>,
            >(
                match l {
                    LinkType::Normal => t.normal.contains((a, b)),
                    LinkType::Sticky => t.sticky.contains((a, b)),
                    LinkType::Group => exists|c: TupId| #[trigger] t.group.contains((a, b, c)),
                },
            ),
            _ => linked_by_name(t, dir1, name1, dir2, name2, l) is Err,
        },
{
}

/// A node that is touched and not there is made: as a directory, which is to be parsed, or as a
/// file. One that is there keeps its row. Either is to be looked at.
pub proof fn what_is_touched_is_there(t: TablesText, dir: TupId, name: Seq<char>, is_dir: bool)
    ensures
        ({
            let (u, r) = t.touch_in(dir, name, is_dir);
            match t.select(dir, name) {
                Some(id) => {
                    &&& r is Ok
                    &&& u.nodes == t.nodes
                    &&& (u.flags)(TupFlags::Modify) == (t.flags)(TupFlags::Modify).insert(id)
                    &&& (u.flags)(TupFlags::Create) == (t.flags)(TupFlags::Create)
                },
                None => r is Ok ==> exists|id: TupId|
                    {
                        &&& #[trigger] u.nodes.dom().contains(id)
                        &&& u.nodes[id].dir == dir && u.nodes[id].name == name
                        &&& u.nodes[id].node_type == if is_dir {
                            NodeType::Dir
                        } else {
                            NodeType::File
                        }
                        &&& u.nodes[id].srcid == -1
                        &&& (u.flags)(TupFlags::Modify) == (t.flags)(TupFlags::Modify).insert(id)
                        &&& (u.flags)(TupFlags::Create) == if is_dir {
                            (t.flags)(TupFlags::Create).insert(id)
                        } else {
                            (t.flags)(TupFlags::Create)
                        }
                        &&& u.nodes == t.nodes.insert(id, u.nodes[id])
                    },
            }
        }),
{
    let (u, r) = t.touch_in(dir, name, is_dir);
    if t.select(dir, name) is None && r is Ok {
        let row = t.new_row(
            dir,
            name,
            if is_dir {
                NodeType::Dir
            } else {
                NodeType::File
            },
            -1i64,
            0,
            -1i64,
            None,
            None,
        )->Ok_0;
        assert(u.nodes.dom().contains(row.id));
        assert(u.nodes =~= t.nodes.insert(row.id, u.nodes[row.id]));
        if !is_dir {
            assert((u.flags)(TupFlags::Create) =~= (t.flags)(TupFlags::Create));
        }
    }
}

/// A single change of a row changes the part of it that it is for; the rest of the row and all
/// other rows stay. A node that is not there is not made.
pub proof fn one_part_of_a_row_changes(
    t: TablesText,
    id: TupId,
    x: TupId,
    kind: NodeType,
    mtime: i64,
    mtime_ns: i64,
    srcid: i64,
    text: Option<Seq<char>>,
)
    requires
        t.nodes.dom().contains(id),
        t.nodes[id].id == id,
    ensures
        ({
            let old_row = t.nodes[id];
            let a = t.set_type(id, kind);
            let b = t.set_mtime(id, mtime, mtime_ns);
            let c = t.set_srcid(id, srcid);
            let d = t.set_display(id, text);
            let e = t.set_flags(id, text);
            &&& a.nodes[id].node_type == kind && a.nodes[id].name == old_row.name
                && a.nodes[id].dir == old_row.dir && a.nodes[id].mtime == old_row.mtime
                && a.nodes[id].srcid == old_row.srcid
            &&& b.nodes[id].mtime == mtime && b.nodes[id].mtime_ns == mtime_ns
                && b.nodes[id].node_type == old_row.node_type && b.nodes[id].name == old_row.name
            &&& c.nodes[id].srcid == srcid && c.nodes[id].node_type == old_row.node_type
                && c.nodes[id].mtime == old_row.mtime
            &&& d.nodes[id].display == text && d.nodes[id].flags == old_row.flags
            &&& e.nodes[id].flags == text && e.nodes[id].display == old_row.display
            &&& x != id ==> {
                &&& a.nodes.dom().contains(x) == t.nodes.dom().contains(x)
                &&& t.nodes.dom().contains(x) ==> a.nodes[x] == t.nodes[x] && b.nodes[x]
                    == t.nodes[x] && c.nodes[x] == t.nodes[x] && d.nodes[x] == t.nodes[x]
                    && e.nodes[x] == t.nodes[x]
                &&& !t.nodes.dom().contains(x) ==> t.set_type(x, kind) == t && t.set_mtime(
                    x,
                    mtime,
                    mtime_ns,
                ) == t && t.set_srcid(x, srcid) == t
            }
        }),
{
}

} // verus!
