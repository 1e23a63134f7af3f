//! What holds of the database whatever is done with it.
use vstd::prelude::*;

use crate::db::errors::DbErrorText;
use crate::db::nodes::{CreateResult, NewNode, World};
use crate::db::rows::{is_named, unique_names};
use crate::db::store_laws::{a_name_finds_its_node, new_identifier_is_new};
use crate::db::tables::{
    initial_tables, setting_int, versions, DbText, TablesText, TupFlags, DB_VERSION, PARSER_VERSION,
};
use crate::numbers::reading_what_was_written;
use crate::types::{int_text, LinkType, NodeType, TupId};

verus! {

/// A rollback takes back all that a transaction did.
pub proof fn rollback_undoes_a_transaction(d: DbText, changed: TablesText)
    requires
        d.saved is None,
    ensures
        d.begun().with(changed).rolled_back() == d,
{
}

/// A commit keeps all that a transaction did.
pub proof fn commit_keeps_a_transaction(d: DbText, changed: TablesText)
    requires
        d.saved is None,
    ensures
        d.begun().with(changed).committed() == d.with(changed),
{
}

/// A number that was set is read back.
pub proof fn settings_are_read_back(
    settings: Map<Seq<char>, Seq<char>>,
    key: Seq<char>,
    value: i32,
    default: i32,
)
    ensures
        setting_int(settings.insert(key, int_text(value as int)), key, default) == Ok::<
            int,
            DbErrorText,
        >(value as int),
{
    reading_what_was_written(value as int, i32::MIN as int, i32::MAX as int);
}

/// A new database has the versions of this library, and names in it are unique.
pub proof fn a_new_database_is_sound()
    ensures
        versions(initial_tables()) == Ok::<(), DbErrorText>(()),
        unique_names(initial_tables().nodes),
{
    reading_what_was_written(DB_VERSION as int, i32::MIN as int, i32::MAX as int);
    reading_what_was_written(PARSER_VERSION as int, i32::MIN as int, i32::MAX as int);
    reveal_strlit("db_version");
    reveal_strlit("parser_version");
    assert("db_version"@.len() != "parser_version"@.len());
    reveal_strlit("$");
    reveal_strlit("/");
    reveal_strlit("^");
    assert("$"@[0] == '$' && "/"@[0] == '/' && "^"@[0] == '^');
}

/// A node that was added is found by its name, and the others as before.
pub proof fn a_new_node_is_found(
    t: TablesText,
    dir: TupId,
    name: Seq<char>,
    node_type: NodeType,
    mtime: i64,
    mtime_ns: i64,
    srcid: i64,
    display: Option<Seq<char>>,
    flags: Option<Seq<char>>,
)
    requires
        unique_names(t.nodes),
        t.new_row(dir, name, node_type, mtime, mtime_ns, srcid, display, flags) is Ok,
    ensures
        ({
            let row = t.new_row(
                dir,
                name,
                node_type,
                mtime,
                mtime_ns,
                srcid,
                display,
                flags,
            )->Ok_0;
            &&& unique_names(t.put(row).nodes)
            &&& t.put(row).select(dir, name) == Some(row.id)
            &&& forall|d: TupId, n: Seq<char>|
                (d != dir || n != name) ==> #[trigger] t.put(row).select(d, n) == t.select(d, n)
        }),
{
    let row = t.new_row(dir, name, node_type, mtime, mtime_ns, srcid, display, flags)->Ok_0;
    let u = t.put(row);
    new_identifier_is_new(t.nodes);
    assert(unique_names(u.nodes)) by {
        assert forall|a: TupId, b: TupId|
            #![trigger u.nodes.dom().contains(a), u.nodes.dom().contains(b)]
            u.nodes.dom().contains(a) && u.nodes.dom().contains(b) && u.nodes[a].dir
                == u.nodes[b].dir && u.nodes[a].name == u.nodes[b].name implies a == b by {
            if a == row.id && b != row.id {
                assert(is_named(t.nodes, dir, name, b));
            } else if b == row.id && a != row.id {
                assert(is_named(t.nodes, dir, name, a));
            } else if a != row.id {
                assert(t.nodes.dom().contains(a) && t.nodes.dom().contains(b));
            }
        }
        assert forall|id: TupId| #[trigger] u.nodes.dom().contains(id) implies u.nodes[id].id
            == id by {
            if id != row.id {
                assert(t.nodes.dom().contains(id));
            }
        }
    }
    assert(is_named(u.nodes, dir, name, row.id));
    a_name_finds_its_node(u.nodes, dir, name, row.id);
    assert forall|d: TupId, n: Seq<char>| (d != dir || n != name) implies #[trigger] u.select(d, n)
        == t.select(d, n) by {
        if exists|id: TupId| is_named(t.nodes, d, n, id) {
            let id = choose|id: TupId| is_named(t.nodes, d, n, id);
            assert(is_named(u.nodes, d, n, id));
            a_name_finds_its_node(t.nodes, d, n, id);
            a_name_finds_its_node(u.nodes, d, n, id);
        } else {
            assert forall|id: TupId| !is_named(u.nodes, d, n, id) by {
                if is_named(u.nodes, d, n, id) {
                    assert(is_named(t.nodes, d, n, id));
                }
            }
        }
    }
}

/// To add a link that is there changes nothing, and a link that was added is
/// there.
pub proof fn links_are_added_once(t: TablesText, from: TupId, to: TupId, link_type: LinkType)
    ensures
        t.link(from, to, link_type).linked(from, to, link_type),
        t.link(from, to, link_type).link(from, to, link_type) == t.link(from, to, link_type),
{
    let u = t.link(from, to, link_type);
    assert(u.link(from, to, link_type) =~= u);
    if link_type == LinkType::Group {
        assert(u.group.contains((from, to, TupId(0))));
    }
}

/// A link that was removed is not there.
pub proof fn removed_links_are_gone(t: TablesText, from: TupId, to: TupId, link_type: LinkType)
    ensures
        !t.unlink(from, to, link_type).linked(from, to, link_type),
{
}

/// No link touches a node whose links were removed.
pub proof fn deleted_links_are_gone(t: TablesText, id: TupId, other: TupId, link_type: LinkType)
    ensures
        !t.delete_links(id).linked(id, other, link_type),
        !t.delete_links(id).linked(other, id, link_type),
{
}

/// To mark a node that is marked changes nothing.
pub proof fn marks_are_set_once(t: TablesText, id: TupId, f: TupFlags)
    requires
        (t.flags)(f).contains(id),
    ensures
        t.flag(id, f) == t,
{
    let u = t.flag(id, f);
    assert forall|g: TupFlags| #[trigger] (u.flags)(g) == (t.flags)(g) by {
        assert((t.flags)(f).insert(id) =~= (t.flags)(f));
    }
    assert(u.flags =~= t.flags);
}

/// A mark is there once it was set, and not once it was taken away; the other
/// marks stay.
pub proof fn marks_are_what_was_set(
    t: TablesText,
    id: TupId,
    f: TupFlags,
    other: TupId,
    g: TupFlags,
)
    ensures
        (t.flag(id, f).flags)(f).contains(id),
        !(t.unflag(id, f).flags)(f).contains(id),
        (other != id || g != f) ==> ((t.flag(id, f).flags)(g).contains(other) <==> (t.flags)(
            g,
        ).contains(other)),
        (other != id || g != f) ==> ((t.unflag(id, f).flags)(g).contains(other) <==> (t.flags)(
            g,
        ).contains(other)),
{
}

/// A text that was set is read back, and the other settings stay.
pub proof fn a_setting_is_read_back(
    settings: Map<Seq<char>, Seq<char>>,
    key: Seq<char>,
    value: Seq<char>,
    other: Seq<char>,
)
    ensures
        settings.insert(key, value).dom().contains(key),
        settings.insert(key, value)[key] == value,
        other != key && settings.dom().contains(other) ==> settings.insert(key, value)[other]
            == settings[other],
{
}

/// To create a node again gives the node that is there.
pub proof fn creating_again_finds_the_node(w: World, new: NewNode)
    requires
        unique_names(w.tables.nodes),
        w.create(new).1 is Ok,
        new.node_type != NodeType::GhostNode,
    ensures
        w.create(new).0.create(new).1 == Ok::<CreateResult, DbErrorText>(
            CreateResult::Existing(w.create(new).1->Ok_0.spec_id()),
        ),
{
    let (u, r) = w.create(new);
    let id = r->Ok_0.spec_id();
    let t = w.tables;
    match t.select(new.dir, new.name) {
        None => {
            a_new_node_is_found(
                t,
                new.dir,
                new.name,
                new.node_type,
                new.mtime,
                new.mtime_ns,
                new.srcid,
                new.display,
                new.flags,
            );
        },
        Some(x) => {
            assert(is_named(t.nodes, new.dir, new.name, x));
            assert(t.nodes.dom().contains(x));
            assert(u.tables.nodes.dom() =~= t.nodes.dom());
            lemma_edited(t, u.tables, x);
            assert(is_named(u.tables.nodes, new.dir, new.name, x));
            a_name_finds_its_node(u.tables.nodes, new.dir, new.name, x);
        },
    }
}

/// Names stay unique where only the row of one node changes, and not its name.
pub proof fn lemma_edited(t: TablesText, u: TablesText, id: TupId)
    requires
        unique_names(t.nodes),
        t.nodes.dom().contains(id),
        u.nodes.dom() == t.nodes.dom(),
        forall|x: TupId| #[trigger] t.nodes.dom().contains(x) && x != id ==> u.nodes[x] == t.nodes[x],
        u.nodes[id].id == id,
        u.nodes[id].dir == t.nodes[id].dir,
        u.nodes[id].name == t.nodes[id].name,
    ensures
        unique_names(u.nodes),
{
    assert forall|a: TupId, b: TupId|
        #![trigger u.nodes.dom().contains(a), u.nodes.dom().contains(b)]
        u.nodes.dom().contains(a) && u.nodes.dom().contains(b) && u.nodes[a].dir == u.nodes[b].dir
            && u.nodes[a].name == u.nodes[b].name implies a == b by {
        assert(t.nodes.dom().contains(a) && t.nodes.dom().contains(b));
    }
    assert forall|x: TupId| #[trigger] u.nodes.dom().contains(x) implies u.nodes[x].id == x by {
        assert(t.nodes.dom().contains(x));
    }
}

/// A node that was deleted is not there, nor is a link or a mark of it.
pub proof fn nothing_is_left_of_a_deleted_node(
    w: World,
    id: TupId,
    other: TupId,
    link_type: LinkType,
    f: TupFlags,
)
    ensures
        !w.delete(id).tables.nodes.dom().contains(id),
        !w.delete(id).tables.linked(id, other, link_type),
        !w.delete(id).tables.linked(other, id, link_type),
        !(w.delete(id).tables.flags)(f).contains(id),
{
}

} // verus!
