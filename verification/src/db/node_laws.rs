//! What holds of nodes that are made, seen and lost, and of what commands wrote.
use vstd::prelude::*;

use crate::db::errors::DbErrorText;
use crate::db::laws::{a_new_node_is_found, lemma_edited};
use crate::db::nodes::{generated_dirs, lemma_one_less, new_file, CreateResult, NewNode, World};
use crate::db::output_tracking::OutputState;
use crate::db::rows::{is_named, unique_names, RowText};
use crate::db::store_laws::{a_name_finds_its_node, lemma_found, new_identifier_is_new};
use crate::db::tables::{TablesText, TupFlags};
use crate::types::{NodeType, TupId};

verus! {

/// What uses a node: the commands and groups that a normal or a sticky link leads to
/// from it.
pub proof fn users_are_what_links_lead_to(t: TablesText, id: TupId, x: TupId)
    ensures
        t.users(id).contains(x) <==> {
            &&& t.nodes.dom().contains(x)
            &&& t.nodes[x].node_type == NodeType::Cmd || t.nodes[x].node_type == NodeType::Group
            &&& t.normal.contains((id, x)) || t.sticky.contains((id, x))
        },
        (t.modify_users(id).flags)(TupFlags::Modify).contains(x) <==> (t.flags)(
            TupFlags::Modify,
        ).contains(x) || t.users(id).contains(x),
        (t.modify_producers(id).flags)(TupFlags::Modify).contains(x) <==> (t.flags)(
            TupFlags::Modify,
        ).contains(x) || t.normal.contains((x, id)),
        (t.flag_dependents(id).flags)(TupFlags::Create).contains(x) <==> (t.flags)(
            TupFlags::Create,
        ).contains(x) || (t.normal.contains((id, x)) && t.nodes.dom().contains(x)
            && t.nodes[x].node_type == NodeType::Dir),
        (t.flag_dependents(id).flags)(TupFlags::Config).contains(x) <==> (t.flags)(
            TupFlags::Config,
        ).contains(x) || (t.sticky.contains((id, x)) && t.nodes.dom().contains(x)
            && t.nodes[x].node_type == NodeType::Dir),
        (t.flag_dependents(id).flags)(TupFlags::Modify) == (t.flags)(TupFlags::Modify),
        t.flag_dependents(id).nodes == t.nodes,
        t.modify_users(id).nodes == t.nodes,
{
}

/// A node whose name is free is made as it was asked for. A new command is to be run, a
/// new directory to be parsed; nothing else changes.
pub proof fn a_new_node_is_made(w: World, new: NewNode)
    requires
        unique_names(w.tables.nodes),
        w.tables.select(new.dir, new.name) is None,
        w.create(new).1 is Ok,
    ensures
        ({
            let (u, r) = w.create(new);
            let id = r->Ok_0.spec_id();
            &&& r->Ok_0 is Created
            &&& !w.tables.nodes.dom().contains(id)
            &&& u.tables.nodes.dom().contains(id)
            &&& u.tables.nodes[id] == (RowText {
                id,
                dir: new.dir,
                node_type: new.node_type,
                mtime: new.mtime,
                mtime_ns: new.mtime_ns,
                srcid: new.srcid,
                name: new.name,
                display: new.display,
                flags: new.flags,
            })
            &&& u.tables.select(new.dir, new.name) == Some(id)
            &&& forall|x: TupId| #[trigger]
                w.tables.nodes.dom().contains(x) ==> u.tables.nodes.dom().contains(x)
                    && u.tables.nodes[x] == w.tables.nodes[x]
            &&& forall|x: TupId| #[trigger]
                u.tables.nodes.dom().contains(x) ==> x == id || w.tables.nodes.dom().contains(x)
            &&& u.tables.normal == w.tables.normal && u.tables.sticky == w.tables.sticky
            &&& forall|f: TupFlags, x: TupId| #[trigger]
                (u.tables.flags)(f).contains(x) <==> (w.tables.flags)(f).contains(x) || (x == id
                    && ((f == TupFlags::Modify && new.node_type == NodeType::Cmd) || (f
                    == TupFlags::Create && new.node_type == NodeType::Dir)))
        }),
{
    new_identifier_is_new(w.tables.nodes);
    a_new_node_is_found(
        w.tables,
        new.dir,
        new.name,
        new.node_type,
        new.mtime,
        new.mtime_ns,
        new.srcid,
        new.display,
        new.flags,
    );
    let (u, r) = w.create(new);
    let t = w.tables.put(u.tables.nodes[r->Ok_0.spec_id()]);
    assert(u.tables.nodes == t.nodes);
}

/// A node whose name is taken: a ghost becomes what was asked for, and is to be run or
/// read again; a node of the type that was asked for stays; any other one is refused, and
/// nothing changes.
pub proof fn a_taken_name_is_kept(w: World, new: NewNode, id: TupId)
    requires
        unique_names(w.tables.nodes),
        w.tables.select(new.dir, new.name) == Some(id),
    ensures
        ({
            let (u, r) = w.create(new);
            let row = w.tables.nodes[id];
            let now = u.tables.nodes[id];
            &&& row.node_type != NodeType::GhostNode && row.node_type != new.node_type ==> r is Err
                && u == w
            &&& row.node_type == NodeType::GhostNode || row.node_type == new.node_type ==> {
                &&& r == Ok::<CreateResult, DbErrorText>(CreateResult::Existing(id))
                &&& u.tables.nodes.dom() == w.tables.nodes.dom()
                &&& now.dir == row.dir && now.name == row.name && now.id == row.id
                &&& now.node_type == new.node_type
                &&& now.srcid == (if new.srcid != -1 {
                    new.srcid
                } else {
                    row.srcid
                })
                &&& new.display is Some ==> now.display == new.display
                &&& new.display is None ==> now.display == row.display
                &&& new.flags is Some ==> now.flags == new.flags
                &&& new.flags is None ==> now.flags == row.flags
                &&& forall|x: TupId| #[trigger]
                    w.tables.nodes.dom().contains(x) && x != id ==> u.tables.nodes[x]
                        == w.tables.nodes[x]
                &&& u.tables.normal == w.tables.normal && u.tables.sticky == w.tables.sticky
            }
            &&& row.node_type == NodeType::GhostNode ==> {
                &&& (u.tables.flags)(TupFlags::Modify).contains(id)
                &&& new.mtime != -1 ==> now.mtime == new.mtime && now.mtime_ns == new.mtime_ns
                &&& new.mtime == -1 ==> now.mtime == row.mtime && now.mtime_ns == row.mtime_ns
            }
            &&& row.node_type != NodeType::GhostNode && row.node_type == new.node_type ==> {
                &&& u.tables.flags == w.tables.flags
                &&& now.mtime == row.mtime && now.mtime_ns == row.mtime_ns
            }
        }),
{
    lemma_found(w.tables.nodes, new.dir, new.name);
    assert(w.tables.nodes.dom().contains(id) && w.tables.nodes[id].id == id);
    let (u, r) = w.create(new);
    assert(u.tables.nodes.dom() =~= w.tables.nodes.dom());
}

/// A file that is seen: a new one gets a node with its time, and its directory is to be
/// parsed. One that is known changes nothing where its time is the same; else it has the
/// new time and is modified, and what uses it is to be run.
pub proof fn a_file_is_seen(
    w: World,
    dir: TupId,
    name: Seq<char>,
    mtime: i64,
    mtime_ns: i64,
)
    requires
        unique_names(w.tables.nodes),
        w.file_seen(dir, name, mtime, mtime_ns).1 is Ok,
    ensures
        ({
            let (u, r) = w.file_seen(dir, name, mtime, mtime_ns);
            let (id, changed) = r->Ok_0;
            match w.tables.select(dir, name) {
                Some(x) => {
                    let row = w.tables.nodes[x];
                    let same = row.mtime == mtime && row.mtime_ns == mtime_ns;
                    &&& id == x
                    &&& changed <==> row.node_type == NodeType::GhostNode || !same
                    &&& !changed ==> u == w
                    &&& changed ==> {
                        &&& u.tables.nodes[x].mtime == mtime && u.tables.nodes[x].mtime_ns
                            == mtime_ns
                        &&& (u.tables.flags)(TupFlags::Modify).contains(x)
                    }
                    &&& row.node_type == NodeType::GhostNode ==> u.tables.nodes[x].node_type
                        == NodeType::File
                    &&& row.node_type != NodeType::GhostNode ==> u.tables.nodes[x].node_type
                        == row.node_type
                    &&& row.node_type != NodeType::GhostNode && !same ==> forall|c: TupId| #[trigger]
                        w.tables.nodes.dom().contains(c) && (w.tables.normal.contains((x, c))
                            || w.tables.sticky.contains((x, c))) && (w.tables.nodes[c].node_type
                            == NodeType::Cmd || w.tables.nodes[c].node_type == NodeType::Group)
                            ==> (u.tables.flags)(TupFlags::Modify).contains(c)
                },
                None => {
                    &&& changed
                    &&& (u.tables.flags)(TupFlags::Create).contains(dir)
                },
            }
        }),
{
    let t = w.tables;
    lemma_found(t.nodes, dir, name);
    match t.select(dir, name) {
        Some(x) => {
            assert(t.nodes.dom().contains(x) && t.nodes[x].id == x);
            let row = t.nodes[x];
            if row.node_type != NodeType::GhostNode && (row.mtime != mtime || row.mtime_ns
                != mtime_ns) {
                let a = t.set_mtime(x, mtime, mtime_ns).flag(x, TupFlags::Modify);
                let u = a.modify_users(x).flag_dependents(x);
                assert forall|c: TupId| #[trigger]
                    t.nodes.dom().contains(c) && (t.normal.contains((x, c)) || t.sticky.contains(
                        (x, c),
                    )) && (t.nodes[c].node_type == NodeType::Cmd || t.nodes[c].node_type
                        == NodeType::Group) implies (u.flags)(TupFlags::Modify).contains(c) by {
                    users_are_what_links_lead_to(a, x, c);
                    users_are_what_links_lead_to(a.modify_users(x), x, c);
                    assert(a.nodes.dom().contains(c));
                }
                users_are_what_links_lead_to(a, x, x);
                users_are_what_links_lead_to(a.modify_users(x), x, x);
            }
        },
        None => {
            let (v, r) = w.create_file(dir, name, mtime, mtime_ns);
            let m = w.create(new_file(dir, name, mtime, mtime_ns)).0;
            let b = World { tables: m.tables.flag(dir, TupFlags::Create), ..m };
            lemma_normal_dirs(b, dir);
        },
    }
}

/// To make directories ordinary ones changes no mark.
proof fn lemma_normal_dirs(w: World, dir: TupId)
    ensures
        w.normal_dirs(dir).tables.flags == w.tables.flags,
    decreases generated_dirs(w.cache),
{
    if w.cache.entries.dom().contains(dir) && w.cache.entries[dir].row.node_type
        == NodeType::GeneratedDir {
        lemma_one_less(w.cache, dir);
        let next = World {
            tables: w.tables.set_type(dir, NodeType::Dir),
            cache: w.cache.set_type(dir, NodeType::Dir),
        };
        lemma_normal_dirs(next, w.cache.entries[dir].row.dir);
    }
}

/// A file or directory that is gone loses its node, with its links and marks; for a file the
/// directory is to be parsed. Ghosts and groups are not on disk and stay, as does
/// everything else.
pub proof fn a_file_is_gone(w: World, dir: TupId, name: Seq<char>)
    requires
        unique_names(w.tables.nodes),
    ensures
        ({
            let (u, gone) = w.file_gone(dir, name);
            &&& !gone ==> u == w
            &&& gone <==> (w.tables.select(dir, name) matches Some(x) && w.tables.nodes[x].node_type
                != NodeType::GhostNode && w.tables.nodes[x].node_type != NodeType::Group)
            &&& gone ==> {
                let x = w.tables.select(dir, name)->0;
                let t = w.tables.nodes[x].node_type;
                &&& u.tables.nodes == w.tables.nodes.remove(x)
                &&& u.tables.select(dir, name) is None
                &&& t == NodeType::File || t == NodeType::Generated ==> x == dir || (
                u.tables.flags)(TupFlags::Create).contains(dir)
                &&& forall|l: (TupId, TupId)| #[trigger]
                    u.tables.normal.contains(l) <==> w.tables.normal.contains(l) && l.0 != x && l.1
                        != x
                &&& forall|l: (TupId, TupId)| #[trigger]
                    u.tables.sticky.contains(l) <==> w.tables.sticky.contains(l) && l.0 != x && l.1
                        != x
                &&& forall|f: TupFlags| !(#[trigger] (u.tables.flags)(f)).contains(x)
            }
        }),
{
    lemma_found(w.tables.nodes, dir, name);
    let (u, gone) = w.file_gone(dir, name);
    if gone {
        let x = w.tables.select(dir, name)->0;
        lemma_found(u.tables.nodes, dir, name);
        match u.tables.select(dir, name) {
            Some(y) => {
                assert(w.tables.nodes.dom().contains(y) && w.tables.nodes.dom().contains(x));
            },
            None => {},
        }
    }
}

// ------------------------------------------------ what a command wrote

/// Whether an output that was found is known: it is a generated file with the time of its
/// last change.
pub open spec fn is_known_output(
    t: TablesText,
    dir: TupId,
    name: Seq<char>,
    mtime: (i64, i64),
) -> bool {
    t.select(dir, name) matches Some(id) && t.nodes[id].node_type == NodeType::Generated
        && t.nodes[id].mtime == mtime.0 && t.nodes[id].mtime_ns == mtime.1
}

proof fn lemma_track(t: TablesText, cmd: TupId, dir: TupId, name: Seq<char>, mtime: (i64, i64))
    requires
        unique_names(t.nodes),
        t.track(cmd, dir, name, mtime) is Ok,
    ensures
        ({
            let u = t.track(cmd, dir, name, mtime)->Ok_0;
            &&& unique_names(u.nodes)
            &&& is_known_output(u, dir, name, mtime)
            &&& u.flags == t.flags
            &&& u.normal == t.normal && u.sticky == t.sticky
            &&& forall|n: Seq<char>, m: (i64, i64)|
                n != name && #[trigger] is_known_output(t, dir, n, m) ==> is_known_output(
                    u,
                    dir,
                    n,
                    m,
                )
            &&& forall|x: TupId| #[trigger]
                t.nodes.dom().contains(x) && !(t.nodes[x].dir == dir && t.nodes[x].name == name)
                    ==> u.nodes.dom().contains(x) && u.nodes[x] == t.nodes[x]
        }),
{
    let u = t.track(cmd, dir, name, mtime)->Ok_0;
    lemma_found(t.nodes, dir, name);
    match t.select(dir, name) {
        Some(id) => {
            assert(t.nodes.dom().contains(id) && t.nodes[id].id == id);
            assert(u.nodes.dom() =~= t.nodes.dom());
            lemma_edited(t, u, id);
            assert(is_named(u.nodes, dir, name, id));
            a_name_finds_its_node(u.nodes, dir, name, id);
            assert forall|n: Seq<char>, m: (i64, i64)|
                n != name && #[trigger] is_known_output(t, dir, n, m) implies is_known_output(
                u,
                dir,
                n,
                m,
            ) by {
                let x = t.select(dir, n)->0;
                lemma_found(t.nodes, dir, n);
                assert(is_named(u.nodes, dir, n, x));
                a_name_finds_its_node(u.nodes, dir, n, x);
            }
        },
        None => {
            new_identifier_is_new(t.nodes);
            a_new_node_is_found(
                t,
                dir,
                name,
                NodeType::Generated,
                mtime.0,
                mtime.1,
                cmd.0,
                None,
                None,
            );
            assert forall|n: Seq<char>, m: (i64, i64)|
                n != name && #[trigger] is_known_output(t, dir, n, m) implies is_known_output(
                u,
                dir,
                n,
                m,
            ) by {
                let x = t.select(dir, n)->0;
                lemma_found(t.nodes, dir, n);
                assert(u.select(dir, n) == t.select(dir, n));
                assert(t.nodes.dom().contains(x));
            }
        },
    }
}

/// Every output of a command that is there is known afterwards, and every one that is not
/// there is named as missing; nothing else is. What is no output stays as it is.
pub proof fn outputs_are_tracked(
    t: TablesText,
    cmd: TupId,
    dir: TupId,
    outputs: Seq<OutputState>,
)
    requires
        unique_names(t.nodes),
        forall|i: int, j: int|
            0 <= i < j < outputs.len() ==> (#[trigger] outputs[i]).name@ != (
            #[trigger] outputs[j]).name@,
        t.track_all(cmd, dir, outputs).error is None,
    ensures
        ({
            let found = t.track_all(cmd, dir, outputs);
            let u = found.tables;
            &&& unique_names(u.nodes)
            &&& forall|i: int|
                0 <= i < outputs.len() ==> match (#[trigger] outputs[i]).mtime {
                    Some(m) => is_known_output(u, dir, outputs[i].name@, m),
                    None => found.missing.contains(outputs[i].name@),
                }
            &&& forall|n: Seq<char>| #[trigger]
                found.missing.contains(n) ==> exists|i: int|
                    0 <= i < outputs.len() && (#[trigger] outputs[i]).name@ == n
                        && outputs[i].mtime is None
            &&& u.flags == t.flags
            &&& u.normal == t.normal && u.sticky == t.sticky
            &&& forall|x: TupId| #[trigger]
                t.nodes.dom().contains(x) && !(t.nodes[x].dir == dir && exists|i: int|
                    0 <= i < outputs.len() && (#[trigger] outputs[i]).name@ == t.nodes[x].name)
                    ==> u.nodes.dom().contains(x) && u.nodes[x] == t.nodes[x]
        }),
    decreases outputs.len(),
{
    let found = t.track_all(cmd, dir, outputs);
    let u = found.tables;
    if outputs.len() > 0 {
        let before = outputs.drop_last();
        let last = outputs.last();
        let n = outputs.len() - 1;
        assert(outputs[n] == last);
        assert forall|i: int, j: int| 0 <= i < j < before.len() implies (
        #[trigger] before[i]).name@ != (#[trigger] before[j]).name@ by {
            assert(before[i] == outputs[i] && before[j] == outputs[j]);
        }
        outputs_are_tracked(t, cmd, dir, before);
        let had = t.track_all(cmd, dir, before);
        let v = had.tables;
        if let Some(m) = last.mtime {
            lemma_track(v, cmd, dir, last.name@, m);
        }
        assert forall|i: int| 0 <= i < outputs.len() implies match (#[trigger] outputs[i]).mtime {
            Some(m) => is_known_output(u, dir, outputs[i].name@, m),
            None => found.missing.contains(outputs[i].name@),
        } by {
            if i < n {
                assert(before[i] == outputs[i]);
                assert(outputs[i].name@ != outputs[n].name@);
                if outputs[i].mtime is None {
                    let k = choose|k: int|
                        0 <= k < had.missing.len() && had.missing[k] == outputs[i].name@;
                    assert(found.missing[k] == outputs[i].name@);
                }
            } else if last.mtime is None {
                assert(found.missing[had.missing.len() as int] == last.name@);
            }
        }
        assert forall|x: Seq<char>| #[trigger] found.missing.contains(x) implies exists|i: int|
            0 <= i < outputs.len() && (#[trigger] outputs[i]).name@ == x && outputs[i].mtime is None by {
            let k = choose|k: int| 0 <= k < found.missing.len() && found.missing[k] == x;
            if k < had.missing.len() {
                assert(had.missing[k] == x);
                assert(had.missing.contains(x));
                let i = choose|i: int|
                    0 <= i < before.len() && (#[trigger] before[i]).name@ == x
                        && before[i].mtime is None;
                assert(outputs[i] == before[i]);
            } else {
                assert(outputs[n].name@ == x);
            }
        }
        assert forall|x: TupId| #[trigger]
            t.nodes.dom().contains(x) && !(t.nodes[x].dir == dir && exists|i: int|
                0 <= i < outputs.len() && (#[trigger] outputs[i]).name@ == t.nodes[x].name) implies
            u.nodes.dom().contains(x) && u.nodes[x] == t.nodes[x] by {
            if t.nodes[x].dir == dir {
                assert(outputs[n].name@ != t.nodes[x].name);
                assert forall|i: int| 0 <= i < before.len() implies (#[trigger] before[i]).name@
                    != t.nodes[x].name by {
                    assert(before[i] == outputs[i]);
                }
            }
            assert(v.nodes.dom().contains(x));
        }
    }
}

/// A ghost that becomes a node is to be looked at, and its directory is to be parsed.
pub proof fn what_was_a_ghost_is_marked(w: World, id: TupId, t: NodeType)
    requires
        w.tables.nodes.dom().contains(id),
        w.tables.nodes[id].id == id,
        w.cache.entries.dom().contains(id),
        w.cache.entries[id].row.dir != id,
    ensures
        ({
            let v = w.unghost(id, t);
            let dir = w.cache.entries[id].row.dir;
            &&& v.tables.nodes[id].node_type == t
            &&& v.cache.entries[id].row.node_type == t
            &&& (v.tables.flags)(TupFlags::Modify).contains(id)
            &&& w.cache.entries.dom().contains(dir) && w.cache.entries[dir].row.node_type
                == NodeType::Dir ==> (v.tables.flags)(TupFlags::Create).contains(dir)
        }),
{
}

/// A directory that holds what no command made is an ordinary one, and so are those above it.
pub proof fn directories_of_files_are_ordinary(w: World, dir: TupId)
    requires
        forall|x: TupId| #[trigger] w.tables.nodes.dom().contains(x) ==> w.tables.nodes[x].id == x,
    ensures
        ({
            let v = w.normal_dirs(dir);
            let here = w.cache.entries[dir].row;
            let up = here.dir;
            &&& v.cache.entries.dom() == w.cache.entries.dom()
            &&& v.tables.nodes.dom() == w.tables.nodes.dom()
            &&& v.tables.flags == w.tables.flags
            &&& v.cache.entries.dom().contains(dir) ==> v.cache.entries[dir].row.node_type
                != NodeType::GeneratedDir
            &&& w.cache.entries.dom().contains(dir) && here.node_type == NodeType::GeneratedDir
                ==> {
                &&& v.cache.entries[dir].row.node_type == NodeType::Dir
                &&& w.tables.nodes.dom().contains(dir) ==> v.tables.nodes[dir].node_type
                    == NodeType::Dir
                &&& w.cache.entries.dom().contains(up) ==> v.cache.entries[up].row.node_type
                    != NodeType::GeneratedDir
            }
        }),
        forall|x: TupId| #[trigger]
            w.cache.entries.dom().contains(x) ==> w.normal_dirs(dir).cache.entries[x].row.dir
                == w.cache.entries[x].row.dir && (w.normal_dirs(
                dir,
            ).cache.entries[x].row.node_type == w.cache.entries[x].row.node_type || (
            w.cache.entries[x].row.node_type == NodeType::GeneratedDir && w.normal_dirs(
                dir,
            ).cache.entries[x].row.node_type == NodeType::Dir)),
        forall|x: TupId| #[trigger]
            w.tables.nodes.dom().contains(x) ==> w.normal_dirs(dir).tables.nodes[x].node_type
                == w.tables.nodes[x].node_type || w.normal_dirs(dir).tables.nodes[x].node_type
                == NodeType::Dir,
    decreases generated_dirs(w.cache),
{
    if w.cache.entries.dom().contains(dir) && w.cache.entries[dir].row.node_type
        == NodeType::GeneratedDir {
        lemma_one_less(w.cache, dir);
        let u = World {
            tables: w.tables.set_type(dir, NodeType::Dir),
            cache: w.cache.set_type(dir, NodeType::Dir),
        };
        directories_of_files_are_ordinary(u, w.cache.entries[dir].row.dir);
        assert(u.cache.entries.dom() =~= w.cache.entries.dom());
        assert(u.tables.nodes.dom() =~= w.tables.nodes.dom());
        assert(u.cache.entries.dom().contains(dir));
    }
}

} // verus!
