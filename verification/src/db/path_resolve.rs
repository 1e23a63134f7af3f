//! From paths to nodes.
use vstd::prelude::*;

use crate::db::entry::{path_of, up_ends, ups, CacheText, EntryCache, EntryText};
use crate::db::errors::{DbError, DbErrorText};
use crate::db::rows::{find_named, is_named, unique_names, RowText};
use crate::db::store_laws::a_name_finds_its_node;
use crate::db::tables::{dot, TablesText, TupDb, TupFlags};
use crate::path_laws::{lemma_split_joined, lemma_split_plain};
use crate::text::{concat3, join, same, split, str_split, str_trim, texts, trim};
use crate::types::{LinkType, NodeType, TupId};

verus! {

/// Whether a path can lead through a node of a type.
pub open spec fn is_passable(t: NodeType) -> bool {
    t == NodeType::Dir || t == NodeType::GeneratedDir || t == NodeType::GhostNode
}

/// Where a path leads from a directory: the directory at its end, `None` where
/// it leads out of the top, or an error. What had to be loaded on the way is in
/// the cache.
pub open spec fn walk(
    nodes: Map<TupId, RowText>,
    cache: CacheText,
    from: TupId,
    parts: Seq<Seq<char>>,
) -> (CacheText, Result<Option<TupId>, DbErrorText>)
    decreases parts.len(),
{
    if parts.len() == 0 {
        (cache, Ok(Some(from)))
    } else {
        let name = parts[0];
        let rest = parts.drop_first();
        if name == "."@ {
            walk(nodes, cache, from, rest)
        } else if name == ".."@ {
            let (c, r) = cache.load(nodes, from);
            match r {
                Err(e) => (c, Err(e)),
                Ok(()) => if c.entries[from].row.dir.0 <= 0 {
                    (c, Ok(None))
                } else {
                    walk(nodes, c, c.entries[from].row.dir, rest)
                },
            }
        } else {
            match find_named(nodes, from, name) {
                Some(id) => if is_passable(nodes[id].node_type) {
                    walk(nodes, cache, id, rest)
                } else {
                    (
                        cache,
                        Err(
                            DbErrorText::Other(
                                "path component '"@ + name + "' is not a directory"@,
                            ),
                        ),
                    )
                },
                None => (
                    cache,
                    Err(DbErrorText::Other("directory '"@ + name + "' not found in database"@)),
                ),
            }
        }
    }
}

/// Whether a path with this last part is only to a directory.
pub open spec fn is_dir_part(last: Seq<char>) -> bool {
    last.len() == 0 || last == "."@ || last == ".."@
}

/// The parts of a path that lead to its directory.
pub open spec fn dir_parts(parts: Seq<Seq<char>>) -> Seq<Seq<char>> {
    if parts.last() == "."@ || parts.last() == ".."@ {
        parts
    } else {
        parts.drop_last()
    }
}

/// The directory that a path leads to and the name at its end. A path to a
/// directory alone has no name.
pub open spec fn resolved(
    nodes: Map<TupId, RowText>,
    cache: CacheText,
    from: TupId,
    path: Seq<char>,
) -> (CacheText, Result<(TupId, Option<Seq<char>>), DbErrorText>) {
    let path = trim(path);
    if path.len() == 0 || path == "."@ {
        (cache, Ok((from, None)))
    } else {
        let parts = split(path, "/"@);
        let (c, r) = walk(nodes, cache, from, dir_parts(parts));
        (
            c,
            match r {
                Err(e) => Err(e),
                Ok(None) => Ok((TupId(0), None)),
                Ok(Some(dir)) => Ok(
                    (
                        dir,
                        if is_dir_part(parts.last()) {
                            None
                        } else {
                            Some(parts.last())
                        },
                    ),
                ),
            },
        )
    }
}

/// Finds the directory that a path leads to from a directory, and the name at
/// the end of the path.
pub fn resolve_path(
    db: &TupDb,
    cache: &mut EntryCache,
    start_dir: TupId,
    path: &str,
) -> (r: Result<(TupId, Option<String>), DbError>)
    ensures
        ({
            let (c, t) = resolved(db@.tables.nodes, old(cache)@, start_dir, path@);
            &&& final(cache)@ == c
            &&& match (r, t) {
                (Ok((a, None)), Ok((b, None))) => a == b,
                (Ok((a, Some(n))), Ok((b, Some(m)))) => a == b && n@ == m,
                (Err(e), Err(f)) => e@ == f,
                _ => false,
            }
        }),
{
    let trimmed = str_trim(path);
    if trimmed.unicode_len() == 0 || same(trimmed, ".") {
        return Ok((start_dir, None));
    }
    proof {
        reveal_strlit("/");
    }
    let parts = str_split(trimmed, "/");
    let ghost all = texts(parts@);
    let ghost nodes = db@.tables.nodes;
    let ghost dirs = dir_parts(all);
    proof {
        assert(all.len() == parts@.len());
        assert(all.last() == parts@[parts@.len() - 1]@);
    }
    let last = parts[parts.len() - 1].as_str();
    let dots = same(last, ".") || same(last, "..");
    let n: usize = if dots {
        parts.len()
    } else {
        parts.len() - 1
    };
    let mut current = start_dir;
    let mut i: usize = 0;
    assert(dirs.skip(0) =~= dirs);
    while i < n
        invariant
            i <= n,
            n == (if dots {
                parts@.len()
            } else {
                (parts@.len() - 1) as nat
            }),
            parts@.len() > 0,
            dots == (all.last() == "."@ || all.last() == ".."@),
            all == texts(parts@),
            all == split(trim(path@), "/"@),
            trim(path@).len() > 0,
            trim(path@) != "."@,
            dirs == dir_parts(all),
            nodes == db@.tables.nodes,
            walk(nodes, cache@, current, dirs.skip(i as int)) == walk(
                nodes,
                old(cache)@,
                start_dir,
                dirs,
            ),
        decreases n - i,
    {
        let component = parts[i].as_str();
        proof {
            assert(dirs.skip(i as int)[0] == component@);
            assert(dirs.skip(i as int).drop_first() =~= dirs.skip(i + 1));
        }
        if same(component, ".") {
        } else if same(component, "..") {
            let parent = match cache.load(db, current) {
                Ok(entry) => entry.dt,
                Err(e) => {
                    return Err(e);
                },
            };
            if parent.raw() <= 0 {
                return Ok((TupId::new(0), None));
            }
            current = parent;
        } else {
            match db.node_select(current, component) {
                Some(row) => {
                    if row.node_type == NodeType::Dir || row.node_type == NodeType::GeneratedDir
                        || row.node_type == NodeType::GhostNode {
                        current = row.id;
                    } else {
                        return Err(
                            DbError::Other(
                                concat3("path component '", component, "' is not a directory"),
                            ),
                        );
                    }
                },
                None => {
                    return Err(
                        DbError::Other(
                            concat3("directory '", component, "' not found in database"),
                        ),
                    );
                },
            }
        }
        i += 1;
    }
    assert(dirs.skip(n as int) =~= Seq::empty());
    let end = &parts[parts.len() - 1];
    assert(all.last() == end@);
    if dots || end.as_str().is_empty() {
        Ok((current, None))
    } else {
        Ok((current, Some(end.clone())))
    }
}

/// The node that a path leads to, if there is one. A path out of the top leads
/// to the node 0.
pub open spec fn resolved_node(
    nodes: Map<TupId, RowText>,
    cache: CacheText,
    from: TupId,
    path: Seq<char>,
) -> Result<Option<TupId>, DbErrorText> {
    match resolved(nodes, cache, from, path).1 {
        Err(e) => Err(e),
        Ok((dir, None)) => Ok(Some(dir)),
        Ok((dir, Some(name))) => Ok(find_named(nodes, dir, name)),
    }
}

/// Finds the node that a path leads to from a directory.
pub fn resolve_full_path(
    db: &TupDb,
    cache: &mut EntryCache,
    start_dir: TupId,
    path: &str,
) -> (r: Result<Option<TupId>, DbError>)
    ensures
        final(cache)@ == resolved(db@.tables.nodes, old(cache)@, start_dir, path@).0,
        match (r, resolved_node(db@.tables.nodes, old(cache)@, start_dir, path@)) {
            (Ok(a), Ok(b)) => a == b,
            (Err(e), Err(f)) => e@ == f,
            _ => false,
        },
{
    match resolve_path(db, cache, start_dir, path) {
        Err(e) => Err(e),
        Ok((dir, None)) => Ok(Some(dir)),
        Ok((dir, Some(name))) => match db.node_select(dir, name.as_str()) {
            Some(row) => Ok(Some(row.id)),
            None => Ok(None),
        },
    }
}

/// Lets a directory depend on a file: when the file changes, the directory is
/// to be parsed.
pub fn add_dir_input(db: &mut TupDb, from_file_id: TupId, to_dir_id: TupId)
    ensures
        final(db)@ == old(db)@.with(
            old(db)@.tables.link(from_file_id, to_dir_id, LinkType::Normal),
        ),
{
    db.link_insert(from_file_id, to_dir_id, LinkType::Normal);
}

/// A directory that depends on a file is to be parsed when the file changes.
pub proof fn dir_inputs_lead_to_parsing(t: TablesText, file: TupId, dir: TupId)
    requires
        t.nodes.dom().contains(dir),
        t.nodes[dir].node_type == NodeType::Dir,
    ensures
        (t.link(file, dir, LinkType::Normal).flag_dependents(file).flags)(
            TupFlags::Create,
        ).contains(dir),
{
}

/// Whether a name can stand for itself in a path.
pub open spec fn is_component(name: Seq<char>) -> bool {
    name.len() > 0 && !name.contains('/') && name != "."@ && name != ".."@
}

/// Whether a node is in memory under the name and in the directory that the
/// database has of it, and the name can stand in a path.
pub open spec fn is_part(
    nodes: Map<TupId, RowText>,
    entries: Map<TupId, EntryText>,
    id: TupId,
) -> bool {
    &&& nodes.dom().contains(id)
    &&& entries.dom().contains(id)
    &&& entries[id].row.dir == nodes[id].dir
    &&& entries[id].row.name == nodes[id].name
    &&& is_component(nodes[id].name)
}

/// Whether a walk from a directory up leads to the top within a number of steps,
/// through directories that are in memory.
pub open spec fn leads_up(
    nodes: Map<TupId, RowText>,
    entries: Map<TupId, EntryText>,
    dt: TupId,
    n: nat,
) -> bool
    decreases n,
{
    if dt == dot() {
        entries.dom().contains(dt) && entries[dt].row.name == "."@
    } else {
        &&& n > 0
        &&& dt.0 > 0
        &&& is_part(nodes, entries, dt)
        &&& is_passable(nodes[dt].node_type)
        &&& leads_up(nodes, entries, entries[dt].row.dir, (n - 1) as nat)
    }
}

/// A walk over names goes on from where it came to.
proof fn lemma_walk_on(
    nodes: Map<TupId, RowText>,
    cache: CacheText,
    from: TupId,
    parts: Seq<Seq<char>>,
    name: Seq<char>,
    to: TupId,
)
    requires
        forall|i: int| 0 <= i < parts.len() ==> is_component(#[trigger] parts[i]),
        walk(nodes, cache, from, parts) == (cache, Ok::<Option<TupId>, DbErrorText>(Some(to))),
    ensures
        walk(nodes, cache, from, parts.push(name)) == walk(nodes, cache, to, seq![name]),
    decreases parts.len(),
{
    if parts.len() == 0 {
        assert(parts.push(name) =~= seq![name]);
    } else {
        let rest = parts.drop_first();
        assert(is_component(parts[0]));
        assert forall|i: int| 0 <= i < rest.len() implies is_component(#[trigger] rest[i]) by {
            assert(rest[i] == parts[i + 1]);
        }
        assert(parts.push(name).drop_first() =~= rest.push(name));
        assert(parts.push(name)[0] == parts[0]);
        let id = find_named(nodes, from, parts[0])->0;
        lemma_walk_on(nodes, cache, id, rest, name, to);
    }
}

/// The names above a node lead down to its directory.
proof fn lemma_walk_down(nodes: Map<TupId, RowText>, cache: CacheText, dt: TupId, n: nat)
    requires
        unique_names(nodes),
        leads_up(nodes, cache.entries, dt, n),
    ensures
        up_ends(cache.entries, dt, n),
        forall|i: int|
            0 <= i < ups(cache.entries, dt, n).len() ==> is_component(
                #[trigger] ups(cache.entries, dt, n)[i],
            ),
        walk(nodes, cache, dot(), ups(cache.entries, dt, n).reverse()) == (
            cache,
            Ok::<Option<TupId>, DbErrorText>(Some(dt)),
        ),
    decreases n,
{
    let up = ups(cache.entries, dt, n);
    if dt == dot() {
        assert(up.reverse() =~= Seq::empty());
    } else {
        let name = nodes[dt].name;
        let parent = nodes[dt].dir;
        let above = ups(cache.entries, parent, (n - 1) as nat);
        lemma_walk_down(nodes, cache, parent, (n - 1) as nat);
        assert(up =~= seq![name] + above);
        assert forall|i: int| 0 <= i < up.len() implies is_component(#[trigger] up[i]) by {
            if i > 0 {
                assert(up[i] == above[i - 1]);
            }
        }
        assert(up.reverse() =~= above.reverse().push(name));
        let down = above.reverse();
        assert forall|i: int| 0 <= i < down.len() implies is_component(#[trigger] down[i]) by {
            assert(down[i] == above[above.len() - 1 - i]);
        }
        lemma_walk_on(nodes, cache, dot(), down, name, parent);
        assert(is_named(nodes, parent, name, dt));
        a_name_finds_its_node(nodes, parent, name, dt);
        let one = seq![name];
        assert(one.drop_first() =~= Seq::empty());
        assert(walk(nodes, cache, dt, Seq::empty()) == (
            cache,
            Ok::<Option<TupId>, DbErrorText>(Some(dt)),
        ));
    }
}

/// Names that were joined to a path are its parts.
proof fn lemma_split_path(parts: Seq<Seq<char>>)
    requires
        parts.len() > 0,
        forall|i: int| 0 <= i < parts.len() ==> is_component(#[trigger] parts[i]),
    ensures
        split(join(parts, "/"@), "/"@) == parts,
    decreases parts.len(),
{
    reveal_strlit("/");
    assert("/"@ =~= seq!['/']);
    let last = parts.last();
    assert(is_component(parts[parts.len() - 1]));
    lemma_split_plain(last);
    if parts.len() == 1 {
        assert(parts =~= seq![last]);
    } else {
        let before = parts.drop_last();
        assert forall|i: int| 0 <= i < before.len() implies is_component(#[trigger] before[i]) by {
            assert(before[i] == parts[i]);
        }
        lemma_split_path(before);
        lemma_split_joined(join(before, "/"@), last);
        assert(before + seq![last] =~= parts);
    }
}

/// The path of a node leads from the top to the node, unless white space around
/// it would be lost.
pub proof fn the_path_of_a_node_leads_to_it(
    nodes: Map<TupId, RowText>,
    cache: CacheText,
    id: TupId,
    n: nat,
)
    requires
        unique_names(nodes),
        is_part(nodes, cache.entries, id),
        leads_up(nodes, cache.entries, nodes[id].dir, n),
        trim(path_of(cache.entries, cache.entries[id].row, n)) == path_of(
            cache.entries,
            cache.entries[id].row,
            n,
        ),
    ensures
        up_ends(cache.entries, cache.entries[id].row.dir, n),
        resolved_node(
            nodes,
            cache,
            dot(),
            path_of(cache.entries, cache.entries[id].row, n),
        ) == Ok::<Option<TupId>, DbErrorText>(Some(id)),
{
    let name = nodes[id].name;
    let dir = nodes[id].dir;
    let up = ups(cache.entries, dir, n);
    let path = path_of(cache.entries, cache.entries[id].row, n);
    lemma_walk_down(nodes, cache, dir, n);
    let parts = (seq![name] + up).reverse();
    assert(parts =~= up.reverse().push(name));
    assert forall|i: int| 0 <= i < parts.len() implies is_component(#[trigger] parts[i]) by {
        if i < up.len() {
            assert(parts[i] == up[up.len() - 1 - i]);
        }
    }
    lemma_split_path(parts);
    assert(parts.drop_last() =~= up.reverse());
    assert(parts.last() == name);
    assert(path != "."@ && path.len() > 0) by {
        reveal_strlit(".");
        reveal_strlit("/");
        assert("/"@ =~= seq!['/']);
        if path == "."@ {
            assert(path[0] == '.' && path.len() == 1);
            lemma_split_plain(path);
            assert(parts[0] == path);
            assert(is_component(parts[0]));
        }
        if path.len() == 0 {
            lemma_split_plain(path);
            assert(parts[0] == path);
            assert(is_component(parts[0]));
        }
    }
    assert(is_named(nodes, dir, name, id));
    a_name_finds_its_node(nodes, dir, name, id);
}

} // verus!
