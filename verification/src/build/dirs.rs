//! Directories of a project, by path and by node.
use vstd::prelude::*;

use crate::db::errors::{DbError, DbErrorText};
use crate::db::laws::a_new_node_is_found;
use crate::db::rows::{unique_names, RowText};
use crate::db::tables::{dot, dot_dt, TablesText, TupDb, TupFlags};
use crate::numbers::{int_between, parse_i64};
use crate::paths::{
    components, file_name, normal_components, parent, path_join, push_all, real_pieces,
    str_components, str_file_name, str_normal_components, str_parent, str_path_join,
};
use crate::text::{concat2, concat3, copy_str, find, same, split, texts};
use crate::types::{i64_to_string, int_text, LinkType, NodeType, TupId};

verus! {

// ------------------------------------------------ from paths to nodes

pub open spec fn no_dir_text(path: Seq<char>) -> Seq<char> {
    "directory not found in DB: "@ + path
}

/// The node that names lead to, one after the other.
pub open spec fn descend(t: TablesText, from: TupId, names: Seq<Seq<char>>) -> Option<TupId>
    decreases names.len(),
{
    if names.len() == 0 {
        Some(from)
    } else {
        match t.select(from, names[0]) {
            Some(id) => descend(t, id, names.drop_first()),
            None => None,
        }
    }
}

/// The node of a directory: the top for an empty path and for `.`, the node
/// with that number for a number, else where its components lead.
pub open spec fn dir_id_of(t: TablesText, path: Seq<char>) -> Option<TupId> {
    if path.len() == 0 || path == "."@ {
        Some(dot())
    } else {
        match int_between(path, i64::MIN as int, i64::MAX as int) {
            Ok(n) => Some(TupId(n as i64)),
            Err(_) => descend(t, dot(), components(path)),
        }
    }
}

/// The node of a directory.
pub fn resolve_dir_id(db: &TupDb, rel_path: &str) -> (r: Result<TupId, String>)
    ensures
        match (r, dir_id_of(db@.tables, rel_path@)) {
            (Ok(id), Some(t)) => id == t,
            (Err(m), None) => m@ == no_dir_text(rel_path@),
            _ => false,
        },
{
    if rel_path.unicode_len() == 0 || same(rel_path, ".") {
        return Ok(dot_dt());
    }
    match parse_i64(rel_path) {
        Ok(n) => {
            return Ok(TupId::new(n));
        },
        Err(_) => {},
    }
    let names = str_components(rel_path);
    let ghost all = texts(names@);
    let mut current = dot_dt();
    let mut i: usize = 0;
    assert(all.skip(0) =~= all);
    while i < names.len()
        invariant
            i <= names.len(),
            all == texts(names@),
            dir_id_of(db@.tables, rel_path@) == descend(db@.tables, dot(), all),
            descend(db@.tables, dot(), all) == descend(db@.tables, current, all.skip(i as int)),
        decreases names.len() - i,
    {
        proof {
            assert(all.skip(i as int)[0] == names@[i as int]@);
            assert(all.skip(i as int).drop_first() =~= all.skip(i + 1));
        }
        match db.node_select(current, names[i].as_str()) {
            Some(row) => {
                current = row.id;
            },
            None => {
                return Err(concat2("directory not found in DB: ", rel_path));
            },
        }
        i += 1;
    }
    assert(all.skip(i as int) =~= Seq::empty());
    Ok(current)
}

impl TablesText {
    /// Names lead to directories; those that are missing are made on the way.
    pub open spec fn make_dirs(self, from: TupId, names: Seq<Seq<char>>) -> (
        TablesText,
        Result<TupId, DbErrorText>,
    )
        decreases names.len(),
    {
        if names.len() == 0 {
            (self, Ok(from))
        } else {
            match self.select(from, names[0]) {
                Some(id) => self.make_dirs(id, names.drop_first()),
                None => match self.new_row(
                    from,
                    names[0],
                    NodeType::Dir,
                    -1i64,
                    0,
                    -1i64,
                    None,
                    None,
                ) {
                    Ok(row) => self.put(row).make_dirs(row.id, names.drop_first()),
                    Err(e) => (self, Err(e)),
                },
            }
        }
    }

    /// The node of a directory, with what had to be made for it.
    pub open spec fn dir_made(self, path: Seq<char>) -> (TablesText, Result<TupId, DbErrorText>) {
        if path.len() == 0 || components(path) == seq![seq!['.']] {
            (self, Ok(dot()))
        } else {
            self.make_dirs(dot(), components(path))
        }
    }
}

/// The node of a directory. Nodes that are missing on the way are made.
pub fn ensure_dir_nodes(db: &mut TupDb, dir_path: &str) -> (r: Result<TupId, DbError>)
    ensures
        ({
            let (t, made) = old(db)@.tables.dir_made(dir_path@);
            &&& final(db)@ == old(db)@.with(t)
            &&& match (r, made) {
                (Ok(id), Ok(t)) => id == t,
                (Err(e), Err(t)) => e@ == t,
                _ => false,
            }
        }),
{
    if dir_path.unicode_len() == 0 {
        return Ok(dot_dt());
    }
    let names = str_components(dir_path);
    let ghost all = texts(names@);
    proof {
        reveal_strlit(".");
        assert("."@ =~= seq!['.']);
    }
    if names.len() == 1 && same(names[0].as_str(), ".") {
        assert(all =~= seq![seq!['.']]);
        return Ok(dot_dt());
    }
    proof {
        if all == seq![seq!['.']] {
            assert(all.len() == 1);
            assert(all[0] == names@[0]@);
        }
    }
    let ghost start = db@;
    let mut current = dot_dt();
    let mut i: usize = 0;
    assert(all.skip(0) =~= all);
    while i < names.len()
        invariant
            i <= names.len(),
            all == texts(names@),
            start == old(db)@,
            start.tables.dir_made(dir_path@) == start.tables.make_dirs(dot(), all),
            start.tables.make_dirs(dot(), all) == db@.tables.make_dirs(
                current,
                all.skip(i as int),
            ),
            db@ == start.with(db@.tables),
        decreases names.len() - i,
    {
        proof {
            assert(all.skip(i as int)[0] == names@[i as int]@);
            assert(all.skip(i as int).drop_first() =~= all.skip(i + 1));
        }
        match db.node_select(current, names[i].as_str()) {
            Some(row) => {
                current = row.id;
            },
            None => {
                match db.node_insert(
                    current,
                    names[i].as_str(),
                    NodeType::Dir,
                    -1,
                    0,
                    -1,
                    None,
                    None,
                ) {
                    Ok(id) => {
                        current = id;
                    },
                    Err(e) => {
                        return Err(e);
                    },
                }
            },
        }
        i += 1;
    }
    assert(all.skip(i as int) =~= Seq::empty());
    Ok(current)
}

proof fn lemma_make_dirs(t: TablesText, from: TupId, names: Seq<Seq<char>>)
    requires
        unique_names(t.nodes),
    ensures
        ({
            let (u, made) = t.make_dirs(from, names);
            &&& unique_names(u.nodes)
            &&& forall|d: TupId, n: Seq<char>|
                t.select(d, n) is Some ==> #[trigger] u.select(d, n) == t.select(d, n)
            &&& made is Ok ==> descend(u, from, names) == Some(made->Ok_0)
        }),
    decreases names.len(),
{
    if names.len() > 0 {
        match t.select(from, names[0]) {
            Some(id) => {
                lemma_make_dirs(t, id, names.drop_first());
            },
            None => {
                if let Ok(row) = t.new_row(
                    from,
                    names[0],
                    NodeType::Dir,
                    -1i64,
                    0,
                    -1i64,
                    None,
                    None,
                ) {
                    a_new_node_is_found(
                        t,
                        from,
                        names[0],
                        NodeType::Dir,
                        -1i64,
                        0,
                        -1i64,
                        None,
                        None,
                    );
                    let v = t.put(row);
                    lemma_make_dirs(v, row.id, names.drop_first());
                    let u = v.make_dirs(row.id, names.drop_first()).0;
                    assert forall|d: TupId, n: Seq<char>| t.select(d, n) is Some implies (
                    #[trigger] u.select(d, n)) == t.select(d, n) by {
                        assert(v.select(d, n) == t.select(d, n));
                    }
                    assert(u.select(from, names[0]) == Some(row.id));
                }
            },
        }
    }
}

/// A directory that was made is found again, and every node that had a name
/// keeps it.
pub proof fn made_directories_are_found(t: TablesText, path: Seq<char>)
    requires
        unique_names(t.nodes),
        int_between(path, i64::MIN as int, i64::MAX as int) is Err,
    ensures
        ({
            let (u, made) = t.dir_made(path);
            &&& unique_names(u.nodes)
            &&& made is Ok && components(path) != seq![seq!['.']] ==> dir_id_of(u, path) == Some(
                made->Ok_0,
            )
            &&& forall|d: TupId, n: Seq<char>|
                t.select(d, n) is Some ==> #[trigger] u.select(d, n) == t.select(d, n)
        }),
{
    reveal_strlit(".");
    if path.len() > 0 && components(path) != seq![seq!['.']] {
        lemma_make_dirs(t, dot(), components(path));
        if path == "."@ {
            lemma_dot_alone();
        }
    }
}

proof fn lemma_dot_alone()
    ensures
        components("."@) == seq![seq!['.']],
{
    reveal_strlit(".");
    assert("."@ =~= seq!['.']);
    let s = seq!['.'];
    assert(find(s.drop_first(), seq!['/']) is None) by {
        assert(s.drop_first() =~= Seq::empty());
    }
    assert(!seq!['/'].is_prefix_of(s)) by {
        assert(seq!['/'][0] == '/' && s[0] == '.');
        if seq!['/'].is_prefix_of(s) {
            assert(s.subrange(0, 1)[0] == '/');
        }
    }
    assert(find(s, seq!['/']) is None);
    assert(split(s, seq!['/']) =~= seq![s]);
    assert(seq![s].drop_last() =~= Seq::empty());
    assert(real_pieces(seq![s].drop_last()) =~= Seq::<Seq<char>>::empty());
    assert(seq![s].last() == seq!['.']);
    assert(real_pieces(seq![s]) =~= Seq::<Seq<char>>::empty());
    assert(components(s) =~= seq![seq!['.']]);
}

/// Whether a directory holds a node with a name.
pub fn node_exists(db: &TupDb, dir: &str, name: &str) -> (r: bool)
    ensures
        r == match dir_id_of(db@.tables, dir@) {
            Some(id) => db@.tables.select(id, name@) is Some,
            None => false,
        },
{
    match resolve_dir_id(db, dir) {
        Ok(id) => db.node_select(id, name).is_some(),
        Err(_) => false,
    }
}

pub open spec fn no_node_text(name: Seq<char>, dir: Seq<char>) -> Seq<char> {
    "node '"@ + name + "' not found in dir '"@ + dir + "'"@
}

/// The node with a name in a directory, or what is missing.
pub open spec fn named_node(t: TablesText, dir: Seq<char>, name: Seq<char>) -> Result<
    TupId,
    Seq<char>,
> {
    match dir_id_of(t, dir) {
        None => Err(no_dir_text(dir)),
        Some(d) => match t.select(d, name) {
            Some(id) => Ok(id),
            None => Err(no_node_text(name, dir)),
        },
    }
}

/// Whether a link leads from one node to another. Both directories are looked
/// for before the nodes in them.
pub open spec fn linked_by_name(
    t: TablesText,
    dir1: Seq<char>,
    name1: Seq<char>,
    dir2: Seq<char>,
    name2: Seq<char>,
    link_type: LinkType,
) -> Result<bool, Seq<char>> {
    match (dir_id_of(t, dir1), dir_id_of(t, dir2)) {
        (None, _) => Err(no_dir_text(dir1)),
        (_, None) => Err(no_dir_text(dir2)),
        _ => match (named_node(t, dir1, name1), named_node(t, dir2, name2)) {
            (Err(m), _) => Err(m),
            (_, Err(m)) => Err(m),
            (Ok(a), Ok(b)) => Ok(t.linked(a, b, link_type)),
        },
    }
}

fn find_node(db: &TupDb, dir_id: TupId, dir: &str, name: &str) -> (r: Result<TupId, String>)
    requires
        dir_id_of(db@.tables, dir@) == Some(dir_id),
    ensures
        match (r, named_node(db@.tables, dir@, name@)) {
            (Ok(id), Ok(t)) => id == t,
            (Err(m), Err(t)) => m@ == t,
            _ => false,
        },
{
    match db.node_select(dir_id, name) {
        Some(row) => Ok(row.id),
        None => {
            let a = concat3("node '", name, "' not found in dir '");
            Err(concat3(a.as_str(), dir, "'"))
        },
    }
}

/// Whether a link leads from one node to another.
pub fn link_between(
    db: &TupDb,
    dir1: &str,
    name1: &str,
    dir2: &str,
    name2: &str,
    link_type: LinkType,
) -> (r: Result<bool, String>)
    ensures
        match (r, linked_by_name(db@.tables, dir1@, name1@, dir2@, name2@, link_type)) {
            (Ok(b), Ok(t)) => b == t,
            (Err(m), Err(t)) => m@ == t,
            _ => false,
        },
{
    let d1 = match resolve_dir_id(db, dir1) {
        Ok(id) => id,
        Err(m) => {
            return Err(m);
        },
    };
    let d2 = match resolve_dir_id(db, dir2) {
        Ok(id) => id,
        Err(m) => {
            return Err(m);
        },
    };
    let a = match find_node(db, d1, dir1, name1) {
        Ok(id) => id,
        Err(m) => {
            return Err(m);
        },
    };
    let b = match find_node(db, d2, dir2, name2) {
        Ok(id) => id,
        Err(m) => {
            return Err(m);
        },
    };
    Ok(db.link_exists(a, b, link_type))
}

// ------------------------------------------------ from nodes to paths

/// Why a node has no path.
#[derive(Debug)]
pub enum NoPath {
    /// A directory above it is not there.
    Missing(TupId),
    /// The directories above it have no end.
    NoTop(TupId),
}

pub open spec fn no_path_text(e: NoPath) -> Seq<char> {
    match e {
        NoPath::Missing(id) => "node "@ + int_text(id.0 as int) + " not found"@,
        NoPath::NoTop(id) => "node "@ + int_text(id.0 as int) + " is not below the top"@,
    }
}

impl NoPath {
    pub fn message(&self) -> (r: String)
        ensures
            r@ == no_path_text(*self),
    {
        match self {
            NoPath::Missing(id) => {
                let n = i64_to_string(id.raw());
                concat3("node ", n.as_str(), " not found")
            },
            NoPath::NoTop(id) => {
                let n = i64_to_string(id.raw());
                concat3("node ", n.as_str(), " is not below the top")
            },
        }
    }
}

/// The names from the top to a node that is at most `n` steps below it.
pub open spec fn names_down(nodes: Map<TupId, RowText>, id: TupId, n: nat) -> Result<
    Seq<Seq<char>>,
    NoPath,
>
    decreases n,
{
    if id == dot() {
        Ok(Seq::empty())
    } else if !nodes.dom().contains(id) {
        Err(NoPath::Missing(id))
    } else if n == 0 {
        Err(NoPath::NoTop(id))
    } else {
        match names_down(nodes, nodes[id].dir, (n - 1) as nat) {
            Ok(names) => Ok(names.push(nodes[id].name)),
            Err(e) => Err(e),
        }
    }
}

/// The path of a directory below a root: no way to the top has more steps than
/// there are nodes.
pub open spec fn dir_path_of(t: TablesText, id: TupId, root: Seq<char>) -> Result<
    Seq<char>,
    NoPath,
> {
    match names_down(t.nodes, id, t.nodes.dom().len()) {
        Ok(names) => Ok(push_all(root, names)),
        Err(e) => Err(e),
    }
}

fn climb(db: &TupDb, id: TupId, n: usize) -> (r: Result<Vec<String>, NoPath>)
    ensures
        match (r, names_down(db@.tables.nodes, id, n as nat)) {
            (Ok(v), Ok(t)) => texts(v@) == t,
            (Err(e), Err(t)) => e == t,
            _ => false,
        },
    decreases n,
{
    if id == dot_dt() {
        let v: Vec<String> = Vec::new();
        assert(texts(v@) =~= Seq::empty());
        return Ok(v);
    }
    match db.node_select_by_id(id) {
        None => Err(NoPath::Missing(id)),
        Some(row) => {
            if n == 0 {
                return Err(NoPath::NoTop(id));
            }
            match climb(db, row.dir, n - 1) {
                Ok(mut names) => {
                    let ghost before = names@;
                    names.push(row.name.clone());
                    assert(texts(names@) =~= texts(before).push(row.name@));
                    Ok(names)
                },
                Err(e) => Err(e),
            }
        },
    }
}

/// A path with names joined to it, one after the other.
fn join_all(root: &str, names: &Vec<String>) -> (r: String)
    ensures
        r@ == push_all(root@, texts(names@)),
{
    let ghost all = texts(names@);
    let mut path = copy_str(root);
    let mut i: usize = 0;
    assert(all.skip(0) =~= all);
    while i < names.len()
        invariant
            i <= names.len(),
            all == texts(names@),
            push_all(root@, all) == push_all(path@, all.skip(i as int)),
        decreases names.len() - i,
    {
        proof {
            assert(all.skip(i as int)[0] == names@[i as int]@);
            assert(all.skip(i as int).drop_first() =~= all.skip(i + 1));
        }
        path = str_path_join(path.as_str(), names[i].as_str());
        i += 1;
    }
    assert(all.skip(i as int) =~= Seq::empty());
    path
}

/// The path of a directory below the root of the project.
pub fn resolve_dir_path(db: &TupDb, dir_id: TupId, tup_root: &str) -> (r: Result<String, NoPath>)
    ensures
        match (r, dir_path_of(db@.tables, dir_id, tup_root@)) {
            (Ok(p), Ok(t)) => p@ == t,
            (Err(e), Err(t)) => e == t,
            _ => false,
        },
{
    match climb(db, dir_id, db.node_count()) {
        Ok(names) => Ok(join_all(tup_root, &names)),
        Err(e) => Err(e),
    }
}

// ------------------------------------------------ paths given by a user

/// A path without `.` and without the `..` that take back a name.
pub open spec fn normal_path(path: Seq<char>) -> Seq<char> {
    push_all(Seq::empty(), normal_components(path))
}

/// A path without `.` and without the `..` that take back a name.
pub fn normalize_path(path: &str) -> (r: String)
    ensures
        r@ == normal_path(path@),
{
    let parts = str_normal_components(path);
    proof {
        reveal_strlit("");
        assert(""@ =~= Seq::empty());
    }
    join_all("", &parts)
}

/// A path seen from a directory that it lies in: the components after those of
/// the directory.
pub open spec fn path_below(path: Seq<char>, dir: Seq<char>) -> Option<Seq<char>> {
    let p = components(path);
    let d = components(dir);
    if d.is_prefix_of(p) {
        Some(push_all(Seq::empty(), p.skip(d.len() as int)))
    } else {
        None
    }
}

/// A path seen from a directory that it lies in.
pub fn strip_dir(path: &str, dir: &str) -> (r: Option<String>)
    ensures
        match (r, path_below(path@, dir@)) {
            (Some(s), Some(t)) => s@ == t,
            (None, None) => true,
            _ => false,
        },
{
    let p = str_components(path);
    let d = str_components(dir);
    let ghost a = texts(p@);
    let ghost b = texts(d@);
    if d.len() > p.len() {
        return None;
    }
    let mut i: usize = 0;
    while i < d.len()
        invariant
            i <= d.len() <= p.len(),
            a == texts(p@),
            b == texts(d@),
            a == components(path@),
            b == components(dir@),
            forall|j: int| 0 <= j < i ==> #[trigger] b[j] == a[j],
        decreases d.len() - i,
    {
        assert(a[i as int] == p@[i as int]@);
        assert(b[i as int] == d@[i as int]@);
        if !same(p[i].as_str(), d[i].as_str()) {
            return None;
        }
        i += 1;
    }
    assert(b =~= a.subrange(0, b.len() as int));
    let ghost tail = a.skip(b.len() as int);
    let mut out = String::new();
    let mut k: usize = d.len();
    proof {
        assert(out@ =~= Seq::empty());
        assert(tail.skip(0) =~= tail);
    }
    while k < p.len()
        invariant
            d.len() <= k <= p.len(),
            a == texts(p@),
            b.len() == d@.len(),
            tail == a.skip(b.len() as int),
            push_all(Seq::empty(), tail) == push_all(out@, tail.skip(k - d@.len())),
        decreases p.len() - k,
    {
        proof {
            assert(tail.skip(k - d@.len())[0] == p@[k as int]@);
            assert(tail.skip(k - d@.len()).drop_first() =~= tail.skip(k - d@.len() + 1));
        }
        out = str_path_join(out.as_str(), p[k].as_str());
        k += 1;
    }
    assert(tail.skip(k - d@.len()) =~= Seq::empty());
    Some(out)
}

/// What the file system knows of a path under other names: the path itself, and
/// the directory above it.
#[derive(Debug)]
pub struct Canonical {
    pub whole: Option<String>,
    pub parent: Option<String>,
}

/// The canonical form of a path: that of the path, or its name in the canonical
/// form of the directory above.
pub open spec fn canonical_of(path: Seq<char>, known: Canonical) -> Option<Seq<char>> {
    match known.whole {
        Some(p) => Some(p@),
        None => match (parent(path), file_name(path), known.parent) {
            (Some(_), Some(name), Some(above)) => Some(path_join(above@, name)),
            _ => None,
        },
    }
}

/// The canonical form of a path. A file that is not there yet is named in the
/// canonical form of its directory.
pub fn try_canonicalize(path: &str, known: &Canonical) -> (r: Option<String>)
    ensures
        match (r, canonical_of(path@, *known)) {
            (Some(s), Some(t)) => s@ == t,
            (None, None) => true,
            _ => false,
        },
{
    match &known.whole {
        Some(p) => {
            return Some(copy_str(p.as_str()));
        },
        None => {},
    }
    match str_parent(path) {
        None => None,
        Some(_) => match str_file_name(path) {
            None => None,
            Some(name) => match &known.parent {
                None => None,
                Some(above) => Some(str_path_join(above.as_str(), name)),
            },
        },
    }
}

pub open spec fn outside_text(path: Seq<char>, root: Seq<char>) -> Seq<char> {
    "path '"@ + path + "' is outside tup root '"@ + root + "'"@
}

/// A path that a user gave, seen from the root of the project, by its name or
/// by its canonical form.
pub open spec fn tup_relative(
    cwd: Seq<char>,
    root: Seq<char>,
    path: Seq<char>,
    known: Canonical,
    known_root: Canonical,
) -> Option<Seq<char>> {
    let full = normal_path(path_join(cwd, path));
    match path_below(full, root) {
        Some(rel) => Some(rel),
        None => match (canonical_of(full, known), canonical_of(root, known_root)) {
            (Some(p), Some(r)) => path_below(p, r),
            _ => None,
        },
    }
}

/// A path that a user gave, seen from the root of the project. `known` is what
/// the file system knows of the normalized path, and `known_root` of the root.
pub fn resolve_to_tup_relative(
    cwd: &str,
    tup_root: &str,
    path: &str,
    known: &Canonical,
    known_root: &Canonical,
) -> (r: Result<String, String>)
    ensures
        match (r, tup_relative(cwd@, tup_root@, path@, *known, *known_root)) {
            (Ok(s), Some(t)) => s@ == t,
            (Err(m), None) => m@ == outside_text(path@, tup_root@),
            _ => false,
        },
{
    let joined = str_path_join(cwd, path);
    let full = normalize_path(joined.as_str());
    match strip_dir(full.as_str(), tup_root) {
        Some(rel) => {
            return Ok(rel);
        },
        None => {},
    }
    if let Some(p) = try_canonicalize(full.as_str(), known) {
        if let Some(root) = try_canonicalize(tup_root, known_root) {
            if let Some(rel) = strip_dir(p.as_str(), root.as_str()) {
                return Ok(rel);
            }
        }
    }
    let a = concat3("path '", path, "' is outside tup root '");
    Err(concat3(a.as_str(), tup_root, "'"))
}

// ------------------------------------------------ touching a file

pub open spec fn no_name_text(path: Seq<char>) -> Seq<char> {
    "no file name in path: "@ + path
}

/// The directory above a path, empty for the top.
pub open spec fn dir_above(path: Seq<char>) -> Seq<char> {
    match parent(path) {
        Some(p) => p,
        None => Seq::empty(),
    }
}

impl TablesText {
    /// A node that is there is marked as modified; one that is not is made, and
    /// a new directory has to be parsed.
    pub open spec fn touch_in(self, dir: TupId, name: Seq<char>, is_dir: bool) -> (
        TablesText,
        Result<(), DbErrorText>,
    ) {
        match self.select(dir, name) {
            Some(id) => (self.flag(id, TupFlags::Modify), Ok(())),
            None => match self.new_row(
                dir,
                name,
                if is_dir {
                    NodeType::Dir
                } else {
                    NodeType::File
                },
                -1i64,
                0,
                -1i64,
                None,
                None,
            ) {
                Err(e) => (self, Err(e)),
                Ok(row) => {
                    let t = self.put(row).flag(row.id, TupFlags::Modify);
                    (
                        if is_dir {
                            t.flag(row.id, TupFlags::Create)
                        } else {
                            t
                        },
                        Ok(()),
                    )
                },
            },
        }
    }

    /// The node of a path is touched, in directories that are made where they
    /// are missing.
    pub open spec fn touch(self, path: Seq<char>, is_dir: bool) -> (
        TablesText,
        Result<(), DbErrorText>,
    ) {
        match file_name(path) {
            None => (self, Err(DbErrorText::Other(no_name_text(path)))),
            Some(name) => {
                let (t, made) = self.dir_made(dir_above(path));
                match made {
                    Err(e) => (t, Err(e)),
                    Ok(dir) => t.touch_in(dir, name, is_dir),
                }
            },
        }
    }
}

/// Creates the node of a path, or marks the one that is there as modified.
/// `is_dir` says whether a directory is there on disk.
pub fn touch_path(db: &mut TupDb, rel_path: &str, is_dir: bool) -> (r: Result<(), DbError>)
    ensures
        ({
            let (t, done) = old(db)@.tables.touch(rel_path@, is_dir);
            &&& final(db)@ == old(db)@.with(t)
            &&& match (r, done) {
                (Ok(()), Ok(())) => true,
                (Err(e), Err(t)) => e@ == t,
                _ => false,
            }
        }),
{
    let name = match str_file_name(rel_path) {
        Some(n) => n,
        None => {
            return Err(DbError::Other(concat2("no file name in path: ", rel_path)));
        },
    };
    proof {
        reveal_strlit("");
        assert(""@ =~= Seq::empty());
    }
    let above = match str_parent(rel_path) {
        Some(p) => p,
        None => "",
    };
    let dir = match ensure_dir_nodes(db, above) {
        Ok(id) => id,
        Err(e) => {
            return Err(e);
        },
    };
    match db.node_select(dir, name) {
        Some(row) => {
            db.flag_add(row.id, TupFlags::Modify);
        },
        None => {
            let node_type = if is_dir {
                NodeType::Dir
            } else {
                NodeType::File
            };
            match db.node_insert(dir, name, node_type, -1, 0, -1, None, None) {
                Err(e) => {
                    return Err(e);
                },
                Ok(id) => {
                    db.flag_add(id, TupFlags::Modify);
                    if is_dir {
                        db.flag_add(id, TupFlags::Create);
                    }
                },
            }
        },
    }
    Ok(())
}

/// A path that was touched has a node, and the node is marked as modified.
pub proof fn touched_files_are_marked(t: TablesText, path: Seq<char>, is_dir: bool)
    requires
        unique_names(t.nodes),
    ensures
        ({
            let (u, done) = t.touch(path, is_dir);
            done is Ok ==> {
                let dir = t.dir_made(dir_above(path)).1->Ok_0;
                &&& file_name(path) is Some
                &&& u.select(dir, file_name(path)->0) is Some
                &&& (u.flags)(TupFlags::Modify).contains(u.select(dir, file_name(path)->0)->0)
            }
        }),
{
    let (u, done) = t.touch(path, is_dir);
    if done is Ok {
        let name = file_name(path)->0;
        let above = dir_above(path);
        let (v, made) = t.dir_made(above);
        let dir = made->Ok_0;
        assert(unique_names(v.nodes)) by {
            if above.len() > 0 && components(above) != seq![seq!['.']] {
                lemma_make_dirs(t, dot(), components(above));
            }
        }
        let node_type = if is_dir {
            NodeType::Dir
        } else {
            NodeType::File
        };
        if v.select(dir, name) is None {
            a_new_node_is_found(v, dir, name, node_type, -1i64, 0, -1i64, None, None);
            let row = v.new_row(dir, name, node_type, -1i64, 0, -1i64, None, None)->Ok_0;
            assert(u.nodes == v.put(row).nodes);
        }
    }
}

} // verus!
