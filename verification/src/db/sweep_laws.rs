//! What holds of files that go from the database.
use vstd::prelude::*;

use crate::db::nodes::World;
use crate::db::rows::{unique_names, RowText};
use crate::db::sweep::{at_or_below, below_some, files_below, steps_up};
use crate::db::tables::{TablesText, TupFlags};
use crate::ids::{ascending, ascending_lists, lemma_increasing_no_duplicates};
use crate::types::{NodeType, TupId};

verus! {

/// What the removal of some files keeps: every other node with its row and its
/// marks. A file that was removed is not there, or is a ghost.
pub open spec fn only_removed(t: TablesText, u: TablesText, gone: Set<TupId>) -> bool {
    &&& forall|x: TupId|
        !gone.contains(x) ==> (#[trigger] u.nodes.dom().contains(x) <==> t.nodes.dom().contains(x))
    &&& forall|x: TupId| #[trigger]
        u.nodes.dom().contains(x) && !gone.contains(x) ==> u.nodes[x] == t.nodes[x]
    &&& forall|x: TupId| #[trigger]
        u.nodes.dom().contains(x) && gone.contains(x) ==> {
            &&& t.nodes.dom().contains(x)
            &&& u.nodes[x].id == t.nodes[x].id
            &&& u.nodes[x].dir == t.nodes[x].dir
            &&& u.nodes[x].name == t.nodes[x].name
            &&& u.nodes[x].node_type == NodeType::GhostNode
        }
    &&& forall|f: TupFlags, x: TupId|
        (t.flags)(f).contains(x) && !gone.contains(x) ==> #[trigger] (u.flags)(f).contains(x)
}

/// The tables when one file goes.
proof fn lemma_one_removed(w: World, id: TupId)
    requires
        w.tables.nodes.dom().contains(id),
        w.tables.nodes[id].id == id,
    ensures
        only_removed(w.tables, w.remove_file(id).tables, set![id]),
        forall|x: TupId|
            w.tables.users(id).contains(x) && x != id ==> #[trigger] (w.remove_file(
                id,
            ).tables.flags)(TupFlags::Modify).contains(x),
        forall|y: TupId| #[trigger]
            w.cache.entries.dom().contains(y) && y != id ==> w.remove_file(
                id,
            ).cache.entries.dom().contains(y),
{
    let t = w.tables;
    let m = t.flag(id, TupFlags::Modify).modify_users(id).flag_dependents(id).flag(
        t.nodes[id].dir,
        TupFlags::Create,
    );
    let u = w.remove_file(id).tables;
    assert(m.nodes == t.nodes);
    assert(u == m.delete_or_ghost(id));
    if m.is_referenced(id) {
        let ghosted = RowText {
            node_type: NodeType::GhostNode,
            srcid: -1i64,
            ..t.nodes[id]
        };
        assert(u.nodes =~= t.nodes.insert(id, ghosted));
    } else {
        assert(u.nodes == t.nodes.remove(id));
    }
    assert forall|f: TupFlags, x: TupId| (t.flags)(f).contains(x) implies #[trigger] (m.flags)(
        f,
    ).contains(x) by {
    }
    assert(t.flag(id, TupFlags::Modify).users(id) == t.users(id));
    assert forall|f: TupFlags, x: TupId| (m.flags)(f).contains(x) && x != id implies #[trigger] (
    u.flags)(f).contains(x) by {
    }
    assert forall|f: TupFlags, x: TupId|
        (t.flags)(f).contains(x) && !set![id].contains(x) implies #[trigger] (u.flags)(f).contains(
        x,
    ) by {
        assert((m.flags)(f).contains(x));
    }
    assert forall|x: TupId| !set![id].contains(x) implies (#[trigger] u.nodes.dom().contains(x)
        <==> t.nodes.dom().contains(x)) by {
        assert(x != id);
    }
    assert forall|x: TupId| #[trigger]
        u.nodes.dom().contains(x) && !set![id].contains(x) implies u.nodes[x] == t.nodes[x] by {
        assert(x != id);
    }
    assert forall|x: TupId| #[trigger]
        u.nodes.dom().contains(x) && set![id].contains(x) implies {
        &&& t.nodes.dom().contains(x)
        &&& u.nodes[x].id == t.nodes[x].id
        &&& u.nodes[x].dir == t.nodes[x].dir
        &&& u.nodes[x].name == t.nodes[x].name
        &&& u.nodes[x].node_type == NodeType::GhostNode
    } by {
        assert(x == id);
        assert(m.is_referenced(id));
    }
    assert forall|x: TupId| w.tables.users(id).contains(x) && x != id implies #[trigger] (u.flags)(
        TupFlags::Modify,
    ).contains(x) by {
        assert((m.flags)(TupFlags::Modify).contains(x));
    }
}

/// The tables when files go, one after the other.
proof fn lemma_removed(w: World, ids: Seq<TupId>)
    requires
        unique_names(w.tables.nodes),
        ids.no_duplicates(),
        forall|i: int| 0 <= i < ids.len() ==> w.tables.nodes.dom().contains(#[trigger] ids[i]),
    ensures
        only_removed(w.tables, w.remove_files(ids).tables, ids.to_set()),
        unique_names(w.remove_files(ids).tables.nodes),
        forall|y: TupId| #[trigger]
            w.cache.entries.dom().contains(y) && !ids.contains(y) ==> w.remove_files(
                ids,
            ).cache.entries.dom().contains(y),
    decreases ids.len(),
{
    let t = w.tables;
    if ids.len() > 0 {
        let id = ids[0];
        let rest = ids.drop_first();
        let v = w.remove_file(id);
        let end = v.remove_files(rest);
        lemma_one_removed(w, id);
        lemma_still_unique(t, v.tables, set![id]);
        assert forall|i: int| 0 <= i < rest.len() implies v.tables.nodes.dom().contains(
            #[trigger] rest[i],
        ) by {
            assert(rest[i] == ids[i + 1]);
            assert(ids[i + 1] != ids[0]);
            assert(t.nodes.dom().contains(ids[i + 1]));
        }
        lemma_removed(v, rest);
        let gone = ids.to_set();
        assert forall|x: TupId| gone.contains(x) <==> x == id || rest.to_set().contains(x) by {
            if rest.contains(x) {
                let i = choose|i: int| 0 <= i < rest.len() && rest[i] == x;
                assert(ids[i + 1] == x);
            }
            if ids.contains(x) && x != id {
                let i = choose|i: int| 0 <= i < ids.len() && ids[i] == x;
                assert(rest[i - 1] == x);
            }
        }
        let u = end.tables;
        assert(!rest.to_set().contains(id)) by {
            if rest.contains(id) {
                let i = choose|i: int| 0 <= i < rest.len() && rest[i] == id;
                assert(ids[i + 1] == ids[0]);
            }
        }
        assert forall|f: TupFlags, x: TupId|
            (t.flags)(f).contains(x) && !gone.contains(x) implies #[trigger] (u.flags)(f).contains(
            x,
        ) by {
            assert((v.tables.flags)(f).contains(x));
        }
        assert forall|x: TupId| #[trigger] u.nodes.dom().contains(x) implies v.tables.nodes.dom().contains(x) by {
            assert(rest.to_set().contains(x) || !rest.to_set().contains(x));
        }
        assert forall|x: TupId| !gone.contains(x) implies (#[trigger] u.nodes.dom().contains(x)
            <==> t.nodes.dom().contains(x)) by {
            assert(v.tables.nodes.dom().contains(x) <==> t.nodes.dom().contains(x));
        }
    }
}

/// Names stay unique.
proof fn lemma_still_unique(t: TablesText, u: TablesText, gone: Set<TupId>)
    requires
        unique_names(t.nodes),
        only_removed(t, u, gone),
    ensures
        unique_names(u.nodes),
{
    assert forall|x: TupId| #[trigger] u.nodes.dom().contains(x) implies t.nodes.dom().contains(x)
        && u.nodes[x].id == x && u.nodes[x].dir == t.nodes[x].dir && u.nodes[x].name
        == t.nodes[x].name by {
        if !gone.contains(x) {
            assert(t.nodes.dom().contains(x));
        }
    }
}

/// The files among some nodes and below them are removed or become ghosts, and
/// nothing else changes but marks that are added.
pub proof fn only_files_go(w: World, tops: Seq<TupId>)
    requires
        unique_names(w.tables.nodes),
    ensures
        only_removed(w.tables, w.sweep(tops).tables, files_below(w.tables.nodes, tops)),
        unique_names(w.sweep(tops).tables.nodes),
        forall|y: TupId| #[trigger]
            w.cache.entries.dom().contains(y) && !files_below(w.tables.nodes, tops).contains(y)
                ==> w.sweep(tops).cache.entries.dom().contains(y),
{
    let gone = files_below(w.tables.nodes, tops);
    let ids = ascending(gone);
    ascending_lists(gone);
    lemma_increasing_no_duplicates(ids);
    assert forall|i: int| 0 <= i < ids.len() implies w.tables.nodes.dom().contains(
        #[trigger] ids[i],
    ) by {
        assert(ids.contains(ids[i]));
    }
    lemma_removed(w, ids);
    assert(ids.to_set() =~= gone);
}

/// The commands that use a file stay its users while other files go.
proof fn lemma_users_marked(w: World, ids: Seq<TupId>, i: int, cmd: TupId)
    requires
        unique_names(w.tables.nodes),
        ids.no_duplicates(),
        forall|j: int| 0 <= j < ids.len() ==> w.tables.nodes.dom().contains(#[trigger] ids[j]),
        0 <= i < ids.len(),
        w.tables.users(ids[i]).contains(cmd),
        !ids.contains(cmd),
    ensures
        (w.remove_files(ids).tables.flags)(TupFlags::Modify).contains(cmd),
    decreases ids.len(),
{
    let id = ids[0];
    let rest = ids.drop_first();
    let v = w.remove_file(id);
    lemma_one_removed(w, id);
    lemma_still_unique(w.tables, v.tables, set![id]);
    assert(ids.contains(id));
    assert forall|j: int| 0 <= j < rest.len() implies v.tables.nodes.dom().contains(
        #[trigger] rest[j],
    ) by {
        assert(rest[j] == ids[j + 1]);
        assert(ids[j + 1] != ids[0]);
        assert(w.tables.nodes.dom().contains(ids[j + 1]));
    }
    assert(!rest.contains(cmd)) by {
        if rest.contains(cmd) {
            let j = choose|j: int| 0 <= j < rest.len() && rest[j] == cmd;
            assert(ids[j + 1] == cmd);
        }
    }
    if i == 0 {
        lemma_removed(v, rest);
        assert((v.tables.flags)(TupFlags::Modify).contains(cmd));
        assert(!rest.to_set().contains(cmd));
    } else {
        let x = ids[i];
        assert(x != id);
        assert(v.tables.nodes.dom().contains(cmd) && v.tables.nodes[cmd] == w.tables.nodes[cmd]);
        assert(v.tables.users(x).contains(cmd));
        assert(rest[i - 1] == x);
        lemma_users_marked(v, rest, i - 1, cmd);
    }
}

/// Every command and group that uses a file which goes is to run.
pub proof fn users_of_deleted_files_run(w: World, tops: Seq<TupId>, file: TupId, cmd: TupId)
    requires
        unique_names(w.tables.nodes),
        files_below(w.tables.nodes, tops).contains(file),
        w.tables.users(file).contains(cmd),
    ensures
        (w.sweep(tops).tables.flags)(TupFlags::Modify).contains(cmd),
{
    let gone = files_below(w.tables.nodes, tops);
    let ids = ascending(gone);
    ascending_lists(gone);
    lemma_increasing_no_duplicates(ids);
    assert forall|i: int| 0 <= i < ids.len() implies w.tables.nodes.dom().contains(
        #[trigger] ids[i],
    ) by {
        assert(ids.contains(ids[i]));
    }
    assert(ids.contains(file));
    let i = choose|i: int| 0 <= i < ids.len() && ids[i] == file;
    lemma_users_marked(w, ids, i, cmd);
}

/// The directory of a file stays marked while files go.
proof fn lemma_directory_marked(w: World, ids: Seq<TupId>, i: int, dir: TupId)
    requires
        unique_names(w.tables.nodes),
        ids.no_duplicates(),
        forall|j: int| 0 <= j < ids.len() ==> w.tables.nodes.dom().contains(#[trigger] ids[j]),
        0 <= i < ids.len(),
        w.tables.nodes[ids[i]].dir == dir,
        !ids.contains(dir),
    ensures
        (w.remove_files(ids).tables.flags)(TupFlags::Create).contains(dir),
    decreases ids.len(),
{
    let id = ids[0];
    let rest = ids.drop_first();
    let v = w.remove_file(id);
    lemma_one_removed(w, id);
    lemma_still_unique(w.tables, v.tables, set![id]);
    assert(ids.contains(id));
    assert forall|j: int| 0 <= j < rest.len() implies v.tables.nodes.dom().contains(
        #[trigger] rest[j],
    ) by {
        assert(rest[j] == ids[j + 1]);
        assert(ids[j + 1] != ids[0]);
        assert(w.tables.nodes.dom().contains(ids[j + 1]));
    }
    assert(!rest.contains(dir)) by {
        if rest.contains(dir) {
            let j = choose|j: int| 0 <= j < rest.len() && rest[j] == dir;
            assert(ids[j + 1] == dir);
        }
    }
    if i == 0 {
        lemma_removed(v, rest);
        let m = w.tables.flag(id, TupFlags::Modify).modify_users(id).flag_dependents(id).flag(
            dir,
            TupFlags::Create,
        );
        assert((m.flags)(TupFlags::Create).contains(dir));
        assert(v.tables == m.delete_or_ghost(id));
        assert((v.tables.flags)(TupFlags::Create).contains(dir));
        assert(!rest.to_set().contains(dir));
    } else {
        let x = ids[i];
        assert(x != id);
        assert(v.tables.nodes.dom().contains(x) && v.tables.nodes[x] == w.tables.nodes[x]);
        assert(rest[i - 1] == x);
        lemma_directory_marked(v, rest, i - 1, dir);
    }
}

/// The directory of a file which goes is to be parsed.
pub proof fn directories_of_deleted_files_are_parsed(w: World, tops: Seq<TupId>, file: TupId)
    requires
        unique_names(w.tables.nodes),
        files_below(w.tables.nodes, tops).contains(file),
        !files_below(w.tables.nodes, tops).contains(w.tables.nodes[file].dir),
    ensures
        (w.sweep(tops).tables.flags)(TupFlags::Create).contains(w.tables.nodes[file].dir),
{
    let gone = files_below(w.tables.nodes, tops);
    let ids = ascending(gone);
    ascending_lists(gone);
    lemma_increasing_no_duplicates(ids);
    assert forall|i: int| 0 <= i < ids.len() implies w.tables.nodes.dom().contains(
        #[trigger] ids[i],
    ) by {
        assert(ids.contains(ids[i]));
    }
    assert(ids.contains(file));
    let i = choose|i: int| 0 <= i < ids.len() && ids[i] == file;
    lemma_directory_marked(w, ids, i, w.tables.nodes[file].dir);
}

/// Whether a node is gone, or left as a ghost that comes from nothing.
pub open spec fn is_gone_as_file(nodes: Map<TupId, RowText>, x: TupId) -> bool {
    nodes.dom().contains(x) ==> nodes[x].node_type == NodeType::GhostNode && nodes[x].srcid == -1
}

/// What is gone stays gone while files go.
proof fn lemma_stays_gone(w: World, ids: Seq<TupId>, x: TupId)
    requires
        ids.contains(x) || is_gone_as_file(w.tables.nodes, x),
        forall|i: int, j: int| 0 <= i < j < ids.len() ==> ids[i] != ids[j],
        forall|i: int| 0 <= i < ids.len() ==> w.tables.nodes.dom().contains(#[trigger] ids[i]),
        forall|y: TupId| #[trigger] w.tables.nodes.dom().contains(y) ==> w.tables.nodes[y].id == y,
    ensures
        is_gone_as_file(w.remove_files(ids).tables.nodes, x),
    decreases ids.len(),
{
    if ids.len() > 0 {
        let rest = ids.drop_first();
        let u = w.remove_file(ids[0]);
        assert forall|i: int, j: int| 0 <= i < j < rest.len() implies rest[i] != rest[j] by {
            assert(rest[i] == ids[i + 1] && rest[j] == ids[j + 1]);
        }
        assert forall|i: int| 0 <= i < rest.len() implies u.tables.nodes.dom().contains(
            #[trigger] rest[i],
        ) by {
            assert(rest[i] == ids[i + 1]);
            assert(ids[0] != ids[i + 1]);
        }
        if x != ids[0] && ids.contains(x) {
            let i = choose|i: int| 0 <= i < ids.len() && ids[i] == x;
            assert(rest[i - 1] == x);
        } else {
            assert(is_gone_as_file(u.tables.nodes, x));
        }
        lemma_stays_gone(u, rest, x);
    }
}

/// The files among some nodes and below them are gone, or left as ghosts: a file among them,
/// one whose directory is among them, and one whose directory is below one of them.
pub proof fn all_files_below_go(w: World, tops: Seq<TupId>, file: TupId)
    requires
        w.tables.nodes.dom().contains(file),
        unique_names(w.tables.nodes),
        w.tables.nodes[file].node_type == NodeType::File,
        tops.contains(file) || tops.contains(w.tables.nodes[file].dir) || below_some(
            w.tables.nodes,
            w.tables.nodes[file].dir,
            tops,
        ),
    ensures
        is_gone_as_file(w.sweep(tops).tables.nodes, file),
{
    let nodes = w.tables.nodes;
    let gone = files_below(nodes, tops);
    assert(gone.contains(file)) by {
        if tops.contains(file) {
            assert(steps_up(nodes, file, file, 0));
            assert(at_or_below(nodes, file, file));
        } else {
            let dir = nodes[file].dir;
            if tops.contains(dir) {
                assert(steps_up(nodes, dir, dir, 0));
                assert(at_or_below(nodes, dir, dir));
            }
            let top = choose|top: TupId|
                tops.contains(top) && #[trigger] at_or_below(nodes, dir, top);
            let k = choose|k: nat| steps_up(nodes, dir, top, k);
            assert(steps_up(nodes, file, top, k + 1));
            assert(at_or_below(nodes, file, top));
        }
        assert(below_some(nodes, file, tops));
    }
    let ids = ascending(gone);
    ascending_lists(gone);
    lemma_increasing_no_duplicates(ids);
    assert forall|i: int| 0 <= i < ids.len() implies nodes.dom().contains(#[trigger] ids[i]) by {
        assert(ids.contains(ids[i]));
    }
    assert(ids.contains(file));
    lemma_stays_gone(w, ids, file);
}

} // verus!
