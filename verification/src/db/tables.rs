//! The tables of the database, and what reads and changes a single one.
//!
//! The tables are held in memory. A program that keeps them on disk loads them
//! before, and saves them after, what it does with them here.
use vstd::prelude::*;

use crate::db::errors::{DbError, DbErrorText};
use crate::db::rows::{
    find_named, is_named, is_taken, new_id, unique_names, GroupKey, LinkKey, NodeRow,
    NodeTable, RowText,
};
use crate::ids::{ascending, ascending_is_unique, increasing, lists};
use crate::numbers::{int_error_text, int_of, parse_i32};
use crate::ordmap::{
    deep, lemma_deep_insert, lemma_deep_remove, lemma_map_of_views, map_of, pair_views, sorted_keys,
    Dup, Key, OrdMap,
};
use crate::parser::reader::opt_str;
use crate::parser::rule::opt_text;
use crate::text::{concat2, concat3, copy_str};
use crate::types::{i64_to_string, int_text, LinkType, NodeType, TupId};

verus! {

/// The version of the tables.
pub const DB_VERSION: i32 = 20;

/// The version of the parser whose results they hold.
pub const PARSER_VERSION: i32 = 17;

/// The node of the project's top directory.
pub open spec fn dot() -> TupId {
    TupId(1)
}

/// The node of the project's top directory.
pub fn dot_dt() -> (r: TupId)
    ensures
        r == dot(),
{
    TupId::new(1)
}

/// The lists of pending work.
#[derive(Debug, Clone, Copy, PartialEq, Eq, Structural)]
pub enum TupFlags {
    /// Configurations to read again.
    Config,
    /// Directories whose Tupfiles are to be parsed.
    Create,
    /// Nodes that changed, and commands to run.
    Modify,
    /// Variants to set up again.
    Variant,
    /// Transient files to remove.
    Transient,
}

/// The tables as mathematical values.
#[verifier::ext_equal]
pub struct TablesText {
    pub nodes: Map<TupId, RowText>,
    pub normal: Set<(TupId, TupId)>,
    pub sticky: Set<(TupId, TupId)>,
    pub group: Set<(TupId, TupId, TupId)>,
    pub flags: spec_fn(TupFlags) -> Set<TupId>,
    pub vars: Map<TupId, Seq<char>>,
    pub settings: Map<Seq<char>, Seq<char>>,
}

/// The database: its tables, and what a rollback goes back to.
#[verifier::ext_equal]
pub struct DbText {
    pub tables: TablesText,
    pub saved: Option<TablesText>,
}

impl DbText {
    pub open spec fn with(self, tables: TablesText) -> DbText {
        DbText { tables, saved: self.saved }
    }

    /// The database in a transaction.
    pub open spec fn begun(self) -> DbText {
        DbText { tables: self.tables, saved: Some(self.tables) }
    }

    /// The database after a transaction was committed.
    pub open spec fn committed(self) -> DbText {
        DbText { tables: self.tables, saved: None }
    }

    /// The database after a transaction was taken back.
    pub open spec fn rolled_back(self) -> DbText {
        DbText { tables: self.saved->0, saved: None }
    }
}

/// The nodes that links lead to from a node.
pub open spec fn outs(links: Set<(TupId, TupId)>, from: TupId) -> Set<TupId> {
    Set::new(|x: TupId| links.contains((from, x)))
}

/// The nodes from which links lead to a node.
pub open spec fn ins(links: Set<(TupId, TupId)>, to: TupId) -> Set<TupId> {
    Set::new(|x: TupId| links.contains((x, to)))
}

/// The links that do not touch a node.
pub open spec fn links_off(links: Set<(TupId, TupId)>, id: TupId) -> Set<(TupId, TupId)> {
    Set::new(|l: (TupId, TupId)| links.contains(l) && l.0 != id && l.1 != id)
}

pub open spec fn taken_error() -> DbErrorText {
    DbErrorText::Sqlite("UNIQUE constraint failed: node.dir, node.name"@)
}

pub open spec fn full_error() -> DbErrorText {
    DbErrorText::Sqlite("database or disk is full"@)
}

impl TablesText {
    /// The node with a name in a directory.
    pub open spec fn select(self, dir: TupId, name: Seq<char>) -> Option<TupId> {
        find_named(self.nodes, dir, name)
    }

    /// The row of a new node, and the error where it cannot be added: its name
    /// is taken, or no identifier is left.
    pub open spec fn new_row(
        self,
        dir: TupId,
        name: Seq<char>,
        node_type: NodeType,
        mtime: i64,
        mtime_ns: i64,
        srcid: i64,
        display: Option<Seq<char>>,
        flags: Option<Seq<char>>,
    ) -> Result<RowText, DbErrorText> {
        if self.select(dir, name) is Some {
            Err(taken_error())
        } else {
            match new_id(self.nodes) {
                None => Err(full_error()),
                Some(id) => Ok(
                    RowText {
                        id,
                        dir,
                        node_type,
                        mtime,
                        mtime_ns,
                        srcid,
                        name,
                        display,
                        flags,
                    },
                ),
            }
        }
    }

    /// The tables with a row under its identifier.
    pub open spec fn put(self, row: RowText) -> TablesText {
        TablesText { nodes: self.nodes.insert(row.id, row), ..self }
    }

    pub open spec fn delete_node(self, id: TupId) -> TablesText {
        TablesText { nodes: self.nodes.remove(id), ..self }
    }

    pub open spec fn set_type(self, id: TupId, node_type: NodeType) -> TablesText {
        if self.nodes.dom().contains(id) {
            self.put(RowText { node_type, ..self.nodes[id] })
        } else {
            self
        }
    }

    pub open spec fn set_mtime(self, id: TupId, mtime: i64, mtime_ns: i64) -> TablesText {
        if self.nodes.dom().contains(id) {
            self.put(RowText { mtime, mtime_ns, ..self.nodes[id] })
        } else {
            self
        }
    }

    pub open spec fn set_srcid(self, id: TupId, srcid: i64) -> TablesText {
        if self.nodes.dom().contains(id) {
            self.put(RowText { srcid, ..self.nodes[id] })
        } else {
            self
        }
    }

    pub open spec fn set_display(self, id: TupId, display: Option<Seq<char>>) -> TablesText {
        if self.nodes.dom().contains(id) {
            self.put(RowText { display, ..self.nodes[id] })
        } else {
            self
        }
    }

    pub open spec fn set_flags(self, id: TupId, flags: Option<Seq<char>>) -> TablesText {
        if self.nodes.dom().contains(id) {
            self.put(RowText { flags, ..self.nodes[id] })
        } else {
            self
        }
    }

    /// The links of a type. A link of a group counts whatever its command.
    pub open spec fn linked(self, from: TupId, to: TupId, t: LinkType) -> bool {
        match t {
            LinkType::Normal => self.normal.contains((from, to)),
            LinkType::Sticky => self.sticky.contains((from, to)),
            LinkType::Group => exists|c: TupId| #[trigger] self.group.contains((from, to, c)),
        }
    }

    pub open spec fn link(self, from: TupId, to: TupId, t: LinkType) -> TablesText {
        match t {
            LinkType::Normal => TablesText { normal: self.normal.insert((from, to)), ..self },
            LinkType::Sticky => TablesText { sticky: self.sticky.insert((from, to)), ..self },
            LinkType::Group => TablesText {
                group: self.group.insert((from, to, TupId(0))),
                ..self
            },
        }
    }

    pub open spec fn unlink(self, from: TupId, to: TupId, t: LinkType) -> TablesText {
        match t {
            LinkType::Normal => TablesText { normal: self.normal.remove((from, to)), ..self },
            LinkType::Sticky => TablesText { sticky: self.sticky.remove((from, to)), ..self },
            LinkType::Group => TablesText {
                group: Set::new(
                    |l: (TupId, TupId, TupId)| self.group.contains(l) && !(l.0 == from && l.1 == to),
                ),
                ..self
            },
        }
    }

    /// The tables without the normal and sticky links that touch a node.
    pub open spec fn unlink_all(self, id: TupId) -> TablesText {
        TablesText {
            normal: links_off(self.normal, id),
            sticky: links_off(self.sticky, id),
            ..self
        }
    }

    /// The tables without any link that touches a node.
    pub open spec fn delete_links(self, id: TupId) -> TablesText {
        TablesText {
            normal: links_off(self.normal, id),
            sticky: links_off(self.sticky, id),
            group: Set::new(
                |l: (TupId, TupId, TupId)|
                    self.group.contains(l) && l.0 != id && l.1 != id && l.2 != id,
            ),
            ..self
        }
    }

    pub open spec fn with_flags(self, f: TupFlags, s: Set<TupId>) -> TablesText {
        TablesText {
            flags: |g: TupFlags|
                if g == f {
                    s
                } else {
                    (self.flags)(g)
                },
            ..self
        }
    }

    pub open spec fn flag(self, id: TupId, f: TupFlags) -> TablesText {
        self.with_flags(f, (self.flags)(f).insert(id))
    }

    pub open spec fn unflag(self, id: TupId, f: TupFlags) -> TablesText {
        self.with_flags(f, (self.flags)(f).remove(id))
    }

    /// The tables with a node in none of the lists of pending work.
    pub open spec fn unflag_all(self, id: TupId) -> TablesText {
        TablesText { flags: |g: TupFlags| (self.flags)(g).remove(id), ..self }
    }

    /// The tables with all nodes of a set in a list.
    pub open spec fn flag_set(self, s: Set<TupId>, f: TupFlags) -> TablesText {
        self.with_flags(f, (self.flags)(f).union(s))
    }

    /// The tables without a node, without its links, and with nothing left to
    /// do for it.
    pub open spec fn erase(self, id: TupId) -> TablesText {
        self.unflag_all(id).delete_links(id).delete_node(id)
    }
}

/// The row of a directory that is no directory on disk, or not a known one.
pub open spec fn initial_row(id: i64, dir: TupId, name: Seq<char>) -> RowText {
    RowText {
        id: TupId(id),
        dir,
        node_type: NodeType::Dir,
        mtime: -1i64,
        mtime_ns: 0,
        srcid: -1i64,
        name,
        display: None,
        flags: None,
    }
}

/// The tables of a new database: the top directory and the three virtual
/// directories in it, and the versions.
pub open spec fn initial_tables() -> TablesText {
    TablesText {
        nodes: Map::empty().insert(dot(), initial_row(1, TupId(0), "."@)).insert(
            TupId(2),
            initial_row(2, dot(), "$"@),
        ).insert(TupId(3), initial_row(3, dot(), "/"@)).insert(TupId(4), initial_row(4, dot(), "^"@)),
        normal: Set::empty(),
        sticky: Set::empty(),
        group: Set::empty(),
        flags: |f: TupFlags| Set::empty(),
        vars: Map::empty(),
        settings: Map::empty().insert("db_version"@, int_text(DB_VERSION as int)).insert(
            "parser_version"@,
            int_text(PARSER_VERSION as int),
        ),
    }
}

/// The setting of a key as a number: the default where there is none, an error
/// where it is no number.
pub open spec fn setting_int(
    settings: Map<Seq<char>, Seq<char>>,
    key: Seq<char>,
    default: i32,
) -> Result<int, DbErrorText> {
    if !settings.dom().contains(key) {
        Ok(default as int)
    } else {
        match int_of(settings[key]) {
            Ok(n) => Ok(n),
            Err(e) => Err(
                DbErrorText::Other(
                    "invalid config value for '"@ + key + "': "@ + int_error_text(e),
                ),
            ),
        }
    }
}

// ------------------------------------------------ sets of links

fn tos(m: &OrdMap<LinkKey, ()>, from: TupId) -> (r: Vec<TupId>)
    ensures
        r@ == ascending(outs(m@.dom(), from)),
        lists(r@, outs(m@.dom(), from)),
{
    let n = m.len();
    let ghost p = m.pairs();
    let ghost want = outs(m@.dom(), from);
    let mut out: Vec<TupId> = Vec::new();
    let mut i: usize = 0;
    while i < n
        invariant
            i <= n,
            n == m.pairs().len(),
            p == m.pairs(),
            sorted_keys(p),
            increasing(out@),
            forall|j: int|
                0 <= j < out@.len() ==> exists|k: int|
                    0 <= k < i && (#[trigger] p[k]).0@ == (from, #[trigger] out@[j]),
            forall|k: int|
                0 <= k < i && (#[trigger] p[k]).0@.0 == from ==> out@.contains(p[k].0@.1),
        decreases n - i,
    {
        let (key, _) = m.at(i);
        let ghost before = out@;
        if key.0 == from {
            out.push(key.1);
            proof {
                assert(out@[before.len() as int] == key.1);
                assert forall|a: int, b: int| 0 <= a < b < out@.len() implies (
                #[trigger] out@[a]).0 < (#[trigger] out@[b]).0 by {
                    if b == before.len() {
                        let k = choose|k: int|
                            0 <= k < i && (#[trigger] p[k]).0@ == (from, before[a]);
                        assert(LinkKey::lt(p[k].0@, p[i as int].0@));
                    }
                }
                assert forall|j: int| 0 <= j < out@.len() implies exists|k: int|
                    0 <= k < i + 1 && (#[trigger] p[k]).0@ == (from, #[trigger] out@[j]) by {
                    if j < before.len() {
                        let k = choose|k: int|
                            0 <= k < i && (#[trigger] p[k]).0@ == (from, before[j]);
                        assert(p[k].0@ == (from, out@[j]));
                    } else {
                        assert(p[i as int].0@ == (from, out@[j]));
                    }
                }
                assert forall|k: int| 0 <= k < i + 1 && (#[trigger] p[k]).0@.0 == from implies out@.contains(
                    p[k].0@.1,
                ) by {
                    if k < i {
                        let j = choose|j: int| 0 <= j < before.len() && before[j] == p[k].0@.1;
                        assert(out@[j] == p[k].0@.1);
                    }
                }
            }
        }
        i += 1;
    }
    proof {
        assert forall|x: TupId| out@.contains(x) <==> want.contains(x) by {
            if out@.contains(x) {
                let j = choose|j: int| 0 <= j < out@.len() && out@[j] == x;
                let k = choose|k: int| 0 <= k < n && (#[trigger] p[k]).0@ == (from, out@[j]);
                assert(m@.dom().contains(p[k].0@));
            }
            if want.contains(x) {
                assert(m@.dom().contains((from, x)));
                let k = choose|k: int| 0 <= k < p.len() && #[trigger] p[k].0@ == (from, x);
                assert(p[k].0@.0 == from);
            }
        }
        ascending_is_unique(out@, want);
    }
    out
}

fn froms(m: &OrdMap<LinkKey, ()>, to: TupId) -> (r: Vec<TupId>)
    ensures
        r@ == ascending(ins(m@.dom(), to)),
        lists(r@, ins(m@.dom(), to)),
{
    let n = m.len();
    let ghost p = m.pairs();
    let ghost want = ins(m@.dom(), to);
    let mut out: Vec<TupId> = Vec::new();
    let mut i: usize = 0;
    while i < n
        invariant
            i <= n,
            n == m.pairs().len(),
            p == m.pairs(),
            sorted_keys(p),
            increasing(out@),
            forall|j: int|
                0 <= j < out@.len() ==> exists|k: int|
                    0 <= k < i && (#[trigger] p[k]).0@ == (#[trigger] out@[j], to),
            forall|k: int|
                0 <= k < i && (#[trigger] p[k]).0@.1 == to ==> out@.contains(p[k].0@.0),
        decreases n - i,
    {
        let (key, _) = m.at(i);
        let ghost before = out@;
        if key.1 == to {
            out.push(key.0);
            proof {
                assert(out@[before.len() as int] == key.0);
                assert forall|a: int, b: int| 0 <= a < b < out@.len() implies (
                #[trigger] out@[a]).0 < (#[trigger] out@[b]).0 by {
                    if b == before.len() {
                        let k = choose|k: int|
                            0 <= k < i && (#[trigger] p[k]).0@ == (before[a], to);
                        assert(LinkKey::lt(p[k].0@, p[i as int].0@));
                    }
                }
                assert forall|j: int| 0 <= j < out@.len() implies exists|k: int|
                    0 <= k < i + 1 && (#[trigger] p[k]).0@ == (#[trigger] out@[j], to) by {
                    if j < before.len() {
                        let k = choose|k: int|
                            0 <= k < i && (#[trigger] p[k]).0@ == (before[j], to);
                        assert(p[k].0@ == (out@[j], to));
                    } else {
                        assert(p[i as int].0@ == (out@[j], to));
                    }
                }
                assert forall|k: int| 0 <= k < i + 1 && (#[trigger] p[k]).0@.1 == to implies out@.contains(
                    p[k].0@.0,
                ) by {
                    if k < i {
                        let j = choose|j: int| 0 <= j < before.len() && before[j] == p[k].0@.0;
                        assert(out@[j] == p[k].0@.0);
                    }
                }
            }
        }
        i += 1;
    }
    proof {
        assert forall|x: TupId| out@.contains(x) <==> want.contains(x) by {
            if out@.contains(x) {
                let j = choose|j: int| 0 <= j < out@.len() && out@[j] == x;
                let k = choose|k: int| 0 <= k < n && (#[trigger] p[k]).0@ == (out@[j], to);
                assert(m@.dom().contains(p[k].0@));
            }
            if want.contains(x) {
                assert(m@.dom().contains((x, to)));
                let k = choose|k: int| 0 <= k < p.len() && #[trigger] p[k].0@ == (x, to);
                assert(p[k].0@.1 == to);
            }
        }
        ascending_is_unique(out@, want);
    }
    out
}

/// The links that do not touch a node.
fn links_without(m: &OrdMap<LinkKey, ()>, id: TupId) -> (r: OrdMap<LinkKey, ()>)
    ensures
        r@.dom() == links_off(m@.dom(), id),
{
    let n = m.len();
    let ghost p = m.pairs();
    let mut out: OrdMap<LinkKey, ()> = OrdMap::new();
    let mut i: usize = 0;
    while i < n
        invariant
            i <= n,
            n == m.pairs().len(),
            p == m.pairs(),
            forall|l: (TupId, TupId)| #[trigger]
                out@.dom().contains(l) <==> l.0 != id && l.1 != id && exists|k: int|
                    0 <= k < i && (#[trigger] p[k]).0@ == l,
        decreases n - i,
    {
        let (key, _) = m.at(i);
        let ghost before = out@.dom();
        if key.0 != id && key.1 != id {
            out.insert(*key, ());
        }
        proof {
            assert forall|l: (TupId, TupId)| #[trigger]
                out@.dom().contains(l) <==> l.0 != id && l.1 != id && exists|k: int|
                    0 <= k < i + 1 && (#[trigger] p[k]).0@ == l by {
                assert(p[i as int].0@ == key@);
                if before.contains(l) {
                    let k = choose|k: int| 0 <= k < i && (#[trigger] p[k]).0@ == l;
                    assert(p[k].0@ == l);
                }
                if exists|k: int| 0 <= k < i + 1 && (#[trigger] p[k]).0@ == l {
                    let k = choose|k: int| 0 <= k < i + 1 && (#[trigger] p[k]).0@ == l;
                    if k < i {
                        assert(p[k].0@ == l);
                    }
                }
            }
        }
        i += 1;
    }
    proof {
        assert(out@.dom() =~= links_off(m@.dom(), id)) by {
            assert forall|l: (TupId, TupId)| out@.dom().contains(l) <==> links_off(
                m@.dom(),
                id,
            ).contains(l) by {
                if out@.dom().contains(l) {
                    let k = choose|k: int| 0 <= k < n && (#[trigger] p[k]).0@ == l;
                    assert(m@.dom().contains(p[k].0@));
                }
                if m@.dom().contains(l) {
                    let k = choose|k: int| 0 <= k < p.len() && #[trigger] p[k].0@ == l;
                    assert(p[k].0@ == l);
                }
            }
        }
    }
    out
}

/// The links of groups that satisfy neither of two conditions: that they touch
/// a node, and that they lead from one node to another.
fn group_links_without(
    m: &OrdMap<GroupKey, ()>,
    id: Option<TupId>,
    pair: Option<(TupId, TupId)>,
) -> (r: OrdMap<GroupKey, ()>)
    ensures
        r@.dom() == Set::new(
            |l: (TupId, TupId, TupId)| m@.dom().contains(l) && group_link_stays(id, pair, l),
        ),
{
    let n = m.len();
    let ghost p = m.pairs();
    let mut out: OrdMap<GroupKey, ()> = OrdMap::new();
    let mut i: usize = 0;
    while i < n
        invariant
            i <= n,
            n == m.pairs().len(),
            p == m.pairs(),
            forall|l: (TupId, TupId, TupId)| #[trigger]
                out@.dom().contains(l) <==> group_link_stays(id, pair, l) && exists|k: int|
                    0 <= k < i && (#[trigger] p[k]).0@ == l,
        decreases n - i,
    {
        let (key, _) = m.at(i);
        let ghost before = out@.dom();
        let mut stays = true;
        if let Some(x) = id {
            if key.0 == x || key.1 == x || key.2 == x {
                stays = false;
            }
        }
        if let Some((a, b)) = pair {
            if key.0 == a && key.1 == b {
                stays = false;
            }
        }
        if stays {
            out.insert(*key, ());
        }
        proof {
            assert(stays == group_link_stays(id, pair, key@));
            assert forall|l: (TupId, TupId, TupId)| #[trigger]
                out@.dom().contains(l) <==> group_link_stays(id, pair, l) && exists|k: int|
                    0 <= k < i + 1 && (#[trigger] p[k]).0@ == l by {
                assert(p[i as int].0@ == key@);
                if before.contains(l) {
                    let k = choose|k: int| 0 <= k < i && (#[trigger] p[k]).0@ == l;
                    assert(p[k].0@ == l);
                }
                if exists|k: int| 0 <= k < i + 1 && (#[trigger] p[k]).0@ == l {
                    let k = choose|k: int| 0 <= k < i + 1 && (#[trigger] p[k]).0@ == l;
                    if k < i {
                        assert(p[k].0@ == l);
                    }
                }
            }
        }
        i += 1;
    }
    proof {
        let want = Set::new(
            |l: (TupId, TupId, TupId)| m@.dom().contains(l) && group_link_stays(id, pair, l),
        );
        assert(out@.dom() =~= want) by {
            assert forall|l: (TupId, TupId, TupId)| out@.dom().contains(l) <==> want.contains(
                l,
            ) by {
                if out@.dom().contains(l) {
                    let k = choose|k: int| 0 <= k < n && (#[trigger] p[k]).0@ == l;
                    assert(m@.dom().contains(p[k].0@));
                }
                if m@.dom().contains(l) {
                    let k = choose|k: int| 0 <= k < p.len() && #[trigger] p[k].0@ == l;
                    assert(p[k].0@ == l);
                }
            }
        }
    }
    out
}

spec fn group_link_stays(
    id: Option<TupId>,
    pair: Option<(TupId, TupId)>,
    l: (TupId, TupId, TupId),
) -> bool {
    &&& match id {
        Some(x) => l.0 != x && l.1 != x && l.2 != x,
        None => true,
    }
    &&& match pair {
        Some((a, b)) => !(l.0 == a && l.1 == b),
        None => true,
    }
}

// ------------------------------------------------ the tables

/// The lists of pending work.
#[derive(Debug)]
struct FlagLists {
    config: OrdMap<TupId, ()>,
    create: OrdMap<TupId, ()>,
    modify: OrdMap<TupId, ()>,
    variant: OrdMap<TupId, ()>,
    transient: OrdMap<TupId, ()>,
}

impl View for FlagLists {
    type V = spec_fn(TupFlags) -> Set<TupId>;

    closed spec fn view(&self) -> spec_fn(TupFlags) -> Set<TupId> {
        |f: TupFlags|
            match f {
                TupFlags::Config => self.config@.dom(),
                TupFlags::Create => self.create@.dom(),
                TupFlags::Modify => self.modify@.dom(),
                TupFlags::Variant => self.variant@.dom(),
                TupFlags::Transient => self.transient@.dom(),
            }
    }
}

impl FlagLists {
    fn new() -> (r: Self)
        ensures
            forall|f: TupFlags| #[trigger] (r@)(f) == Set::<TupId>::empty(),
    {
        FlagLists {
            config: OrdMap::new(),
            create: OrdMap::new(),
            modify: OrdMap::new(),
            variant: OrdMap::new(),
            transient: OrdMap::new(),
        }
    }

    fn list(&self, f: TupFlags) -> (r: &OrdMap<TupId, ()>)
        ensures
            r@.dom() == (self@)(f),
    {
        match f {
            TupFlags::Config => &self.config,
            TupFlags::Create => &self.create,
            TupFlags::Modify => &self.modify,
            TupFlags::Variant => &self.variant,
            TupFlags::Transient => &self.transient,
        }
    }

    fn insert(&mut self, id: TupId, f: TupFlags)
        ensures
            forall|g: TupFlags| #[trigger]
                (final(self)@)(g) == if g == f {
                    (old(self)@)(g).insert(id)
                } else {
                    (old(self)@)(g)
                },
    {
        match f {
            TupFlags::Config => self.config.insert(id, ()),
            TupFlags::Create => self.create.insert(id, ()),
            TupFlags::Modify => self.modify.insert(id, ()),
            TupFlags::Variant => self.variant.insert(id, ()),
            TupFlags::Transient => self.transient.insert(id, ()),
        }
    }

    fn remove(&mut self, id: TupId, f: TupFlags)
        ensures
            forall|g: TupFlags| #[trigger]
                (final(self)@)(g) == if g == f {
                    (old(self)@)(g).remove(id)
                } else {
                    (old(self)@)(g)
                },
    {
        let _ = match f {
            TupFlags::Config => self.config.remove(&id),
            TupFlags::Create => self.create.remove(&id),
            TupFlags::Modify => self.modify.remove(&id),
            TupFlags::Variant => self.variant.remove(&id),
            TupFlags::Transient => self.transient.remove(&id),
        };
    }

    fn copy(&self) -> (r: Self)
        ensures
            r@ == self@,
    {
        let r = FlagLists {
            config: copy_set(&self.config),
            create: copy_set(&self.create),
            modify: copy_set(&self.modify),
            variant: copy_set(&self.variant),
            transient: copy_set(&self.transient),
        };
        assert(r@ =~= self@);
        r
    }
}

impl Dup for () {
    fn dup(&self) -> (r: Self) {
        ()
    }
}

fn copy_set<K: Key>(m: &OrdMap<K, ()>) -> (r: OrdMap<K, ()>)
    ensures
        r@.dom() == m@.dom(),
{
    let r = m.copy();
    proof {
        assert(deep(r@).dom() =~= r@.dom());
        assert(deep(m@).dom() =~= m@.dom());
    }
    r
}

/// Variables as texts.
pub open spec fn var_texts(v: Seq<(TupId, String)>) -> Seq<(TupId, Seq<char>)> {
    Seq::new(v.len(), |i: int| (v[i].0, v[i].1@))
}

/// Settings as texts.
pub open spec fn setting_texts(v: Seq<(String, String)>) -> Seq<(Seq<char>, Seq<char>)> {
    Seq::new(v.len(), |i: int| (v[i].0@, v[i].1@))
}

fn pairs_of(m: &OrdMap<LinkKey, ()>) -> (r: Vec<(TupId, TupId)>)
    ensures
        r@.to_set() == m@.dom(),
{
    let n = m.len();
    let mut out: Vec<(TupId, TupId)> = Vec::new();
    let mut i: usize = 0;
    while i < n
        invariant
            i <= n,
            n == m.pairs().len(),
            out@.len() == i,
            forall|j: int| 0 <= j < i ==> #[trigger] out@[j] == m.pairs()[j].0@,
        decreases n - i,
    {
        let (k, _) = m.at(i);
        out.push((k.0, k.1));
        i += 1;
    }
    proof {
        let p = m.pairs();
        assert forall|l: (TupId, TupId)|
            out@.to_set().contains(l) <==> m@.dom().contains(l) by {
            if out@.contains(l) {
                let j = choose|j: int| 0 <= j < out@.len() && out@[j] == l;
                assert(m@.dom().contains(p[j].0@));
            }
            if m@.dom().contains(l) {
                let j = choose|j: int| 0 <= j < p.len() && #[trigger] p[j].0@ == l;
                assert(out@[j] == l);
            }
        }
        assert(out@.to_set() =~= m@.dom());
    }
    out
}

#[derive(Debug)]
struct Tables {
    nodes: NodeTable,
    normal: OrdMap<LinkKey, ()>,
    sticky: OrdMap<LinkKey, ()>,
    group: OrdMap<GroupKey, ()>,
    flags: FlagLists,
    vars: OrdMap<TupId, String>,
    settings: OrdMap<String, String>,
}

impl View for Tables {
    type V = TablesText;

    closed spec fn view(&self) -> TablesText {
        TablesText {
            nodes: self.nodes@,
            normal: self.normal@.dom(),
            sticky: self.sticky@.dom(),
            group: self.group@.dom(),
            flags: self.flags@,
            vars: deep(self.vars@),
            settings: deep(self.settings@),
        }
    }
}

impl Tables {
    fn copy(&self) -> (r: Self)
        ensures
            r@ == self@,
    {
        Tables {
            nodes: self.nodes.copy(),
            normal: copy_set(&self.normal),
            sticky: copy_set(&self.sticky),
            group: copy_set(&self.group),
            flags: self.flags.copy(),
            vars: self.vars.copy(),
            settings: self.settings.copy(),
        }
    }
}

/// The database of a project.
#[derive(Debug)]
pub struct TupDb {
    tables: Tables,
    saved: Option<Tables>,
}

impl View for TupDb {
    type V = DbText;

    closed spec fn view(&self) -> DbText {
        DbText {
            tables: self.tables@,
            saved: match self.saved {
                Some(t) => Some(t@),
                None => None,
            },
        }
    }
}

fn opt_copy(s: Option<&str>) -> (r: Option<String>)
    ensures
        opt_text(r) == opt_str(s),
{
    match s {
        Some(t) => Some(copy_str(t)),
        None => None,
    }
}

impl TupDb {
    /// A database without any node.
    pub(crate) fn empty() -> (r: Self)
        ensures
            r@.saved is None,
            r@.tables == (TablesText {
                nodes: Map::empty(),
                normal: Set::empty(),
                sticky: Set::empty(),
                group: Set::empty(),
                flags: |f: TupFlags| Set::empty(),
                vars: Map::empty(),
                settings: Map::empty(),
            }),
    {
        let r = TupDb {
            tables: Tables {
                nodes: NodeTable::new(),
                normal: OrdMap::new(),
                sticky: OrdMap::new(),
                group: OrdMap::new(),
                flags: FlagLists::new(),
                vars: OrdMap::new(),
                settings: OrdMap::new(),
            },
            saved: None,
        };
        proof {
            assert(r@.tables.flags =~= (|f: TupFlags| Set::<TupId>::empty()));
            assert(r@.tables.normal =~= Set::empty());
            assert(r@.tables.sticky =~= Set::empty());
            assert(r@.tables.group =~= Set::empty());
            assert(r@.tables.vars =~= Map::empty());
            assert(r@.tables.settings =~= Map::empty());
        }
        r
    }

    /// A new database: the top directory, the virtual directories `$`, `/` and
    /// `^`, and the versions.
    pub fn create_in_memory() -> (r: Self)
        ensures
            r@ == (DbText { tables: initial_tables(), saved: None }),
    {
        proof {
            reveal_strlit("$");
            reveal_strlit("/");
            reveal_strlit("^");
            assert("$"@[0] == '$' && "/"@[0] == '/' && "^"@[0] == '^');
        }
        let mut db = TupDb::empty();
        db.put_initial_row(1, TupId::new(0), ".");
        db.put_initial_row(2, dot_dt(), "$");
        db.put_initial_row(3, dot_dt(), "/");
        db.put_initial_row(4, dot_dt(), "^");
        db.config_set_int("db_version", DB_VERSION);
        db.config_set_int("parser_version", PARSER_VERSION);
        proof {
            assert(db@.tables.nodes =~= initial_tables().nodes);
            assert(db@.tables.settings =~= initial_tables().settings);
            assert(db@.tables =~= initial_tables());
        }
        db
    }

    /// Puts a row under its identifier, and says whether its name was free.
    pub(crate) fn put_row(&mut self, row: NodeRow) -> (r: bool)
        ensures
            r == !is_taken(old(self)@.tables.nodes, row@),
            r ==> final(self)@ == old(self)@.with(old(self)@.tables.put(row@)),
            !r ==> final(self)@ == old(self)@,
    {
        self.tables.nodes.put(row)
    }

    /// All normal links.
    pub fn normal_links(&self) -> (r: Vec<(TupId, TupId)>)
        ensures
            r@.to_set() == self@.tables.normal,
    {
        pairs_of(&self.tables.normal)
    }

    /// All sticky links.
    pub fn sticky_links(&self) -> (r: Vec<(TupId, TupId)>)
        ensures
            r@.to_set() == self@.tables.sticky,
    {
        pairs_of(&self.tables.sticky)
    }

    /// All group links, each with the command for which it is there.
    pub fn group_links(&self) -> (r: Vec<(TupId, TupId, TupId)>)
        ensures
            r@.to_set() == self@.tables.group,
    {
        let m = &self.tables.group;
        let n = m.len();
        let mut out: Vec<(TupId, TupId, TupId)> = Vec::new();
        let mut i: usize = 0;
        while i < n
            invariant
                i <= n,
                n == m.pairs().len(),
                out@.len() == i,
                forall|j: int| 0 <= j < i ==> #[trigger] out@[j] == m.pairs()[j].0@,
            decreases n - i,
        {
            let (k, _) = m.at(i);
            out.push((k.0, k.1, k.2));
            i += 1;
        }
        proof {
            let p = m.pairs();
            assert forall|l: (TupId, TupId, TupId)|
                out@.to_set().contains(l) <==> m@.dom().contains(l) by {
                if out@.contains(l) {
                    let j = choose|j: int| 0 <= j < out@.len() && out@[j] == l;
                    assert(m@.dom().contains(p[j].0@));
                }
                if m@.dom().contains(l) {
                    let j = choose|j: int| 0 <= j < p.len() && #[trigger] p[j].0@ == l;
                    assert(out@[j] == l);
                }
            }
            assert(out@.to_set() =~= m@.dom());
        }
        out
    }

    /// All variables, in the order of their nodes.
    pub fn var_list(&self) -> (r: Vec<(TupId, String)>)
        ensures
            map_of(var_texts(r@)) == self@.tables.vars,
    {
        let m = &self.tables.vars;
        let n = m.len();
        let mut out: Vec<(TupId, String)> = Vec::new();
        let mut i: usize = 0;
        while i < n
            invariant
                i <= n,
                n == m.pairs().len(),
                out@.len() == i,
                forall|j: int|
                    0 <= j < i ==> (#[trigger] out@[j]).0 == m.pairs()[j].0 && out@[j].1@
                        == m.pairs()[j].1@,
            decreases n - i,
        {
            let (k, v) = m.at(i);
            out.push((*k, v.clone()));
            i += 1;
        }
        proof {
            assert(var_texts(out@) =~= pair_views(m.pairs()));
            lemma_map_of_views(m.pairs());
        }
        out
    }

    /// All settings, in the order of their names.
    pub fn setting_list(&self) -> (r: Vec<(String, String)>)
        ensures
            map_of(setting_texts(r@)) == self@.tables.settings,
    {
        let m = &self.tables.settings;
        let n = m.len();
        let mut out: Vec<(String, String)> = Vec::new();
        let mut i: usize = 0;
        while i < n
            invariant
                i <= n,
                n == m.pairs().len(),
                out@.len() == i,
                forall|j: int|
                    0 <= j < i ==> (#[trigger] out@[j]).0@ == m.pairs()[j].0@ && out@[j].1@
                        == m.pairs()[j].1@,
            decreases n - i,
        {
            let (k, v) = m.at(i);
            out.push((k.clone(), v.clone()));
            i += 1;
        }
        proof {
            assert(setting_texts(out@) =~= pair_views(m.pairs()));
            lemma_map_of_views(m.pairs());
        }
        out
    }

    fn put_initial_row(&mut self, id: i64, dir: TupId, name: &str)
        ensures
            final(self)@ == old(self)@.with(
                if is_taken(old(self)@.tables.nodes, initial_row(id, dir, name@)) {
                    old(self)@.tables
                } else {
                    old(self)@.tables.put(initial_row(id, dir, name@))
                },
            ),
            is_taken(old(self)@.tables.nodes, initial_row(id, dir, name@)) ==> exists|x: TupId| #[trigger]
                old(self)@.tables.nodes.dom().contains(x) && old(self)@.tables.nodes[x].dir == dir
                    && old(self)@.tables.nodes[x].name == name@,
    {
        let row = NodeRow {
            id: TupId::new(id),
            dir,
            node_type: NodeType::Dir,
            mtime: -1,
            mtime_ns: 0,
            srcid: -1,
            name: copy_str(name),
            display: None,
            flags: None,
        };
        let ghost text = row@;
        assert(text == initial_row(id, dir, name@));
        let ghost nodes = self.tables.nodes@;
        proof {
            if is_taken(nodes, text) {
                let x = choose|x: TupId| #[trigger]
                    is_named(nodes, text.dir, text.name, x) && x != text.id;
                assert(nodes.dom().contains(x));
            }
        }
        let _ = self.tables.nodes.put(row);
    }

    /// Begins a transaction. Fails within one.
    pub fn begin(&mut self) -> (r: Result<(), DbError>)
        ensures
            match r {
                Ok(()) => old(self)@.saved is None && final(self)@ == old(self)@.begun(),
                Err(e) => {
                    &&& old(self)@.saved is Some
                    &&& e@ == DbErrorText::Sqlite(
                        "cannot start a transaction within a transaction"@,
                    )
                    &&& final(self)@ == old(self)@
                },
            },
    {
        match &self.saved {
            Some(_) => Err(
                DbError::Sqlite(copy_str("cannot start a transaction within a transaction")),
            ),
            None => {
                self.saved = Some(self.tables.copy());
                Ok(())
            },
        }
    }

    /// Commits the transaction. Fails outside of one.
    pub fn commit(&mut self) -> (r: Result<(), DbError>)
        ensures
            match r {
                Ok(()) => old(self)@.saved is Some && final(self)@ == old(self)@.committed(),
                Err(e) => {
                    &&& old(self)@.saved is None
                    &&& e@ == DbErrorText::Sqlite("cannot commit - no transaction is active"@)
                    &&& final(self)@ == old(self)@
                },
            },
    {
        match &self.saved {
            Some(_) => {
                self.saved = None;
                Ok(())
            },
            None => Err(DbError::Sqlite(copy_str("cannot commit - no transaction is active"))),
        }
    }

    /// Takes back what the transaction did. Fails outside of one.
    pub fn rollback(&mut self) -> (r: Result<(), DbError>)
        ensures
            match r {
                Ok(()) => old(self)@.saved is Some && final(self)@ == old(self)@.rolled_back(),
                Err(e) => {
                    &&& old(self)@.saved is None
                    &&& e@ == DbErrorText::Sqlite("cannot rollback - no transaction is active"@)
                    &&& final(self)@ == old(self)@
                },
            },
    {
        match &self.saved {
            Some(t) => {
                let back = t.copy();
                self.tables = back;
                self.saved = None;
                Ok(())
            },
            None => Err(DbError::Sqlite(copy_str("cannot rollback - no transaction is active"))),
        }
    }

    // -------------------------------------------- settings

    /// Sets a setting.
    pub fn config_set_string(&mut self, key: &str, value: &str)
        ensures
            final(self)@ == old(self)@.with(
                TablesText {
                    settings: old(self)@.tables.settings.insert(key@, value@),
                    ..old(self)@.tables
                },
            ),
    {
        let v = copy_str(value);
        proof {
            lemma_deep_insert(self.tables.settings@, key@, v);
        }
        self.tables.settings.insert(copy_str(key), v);
    }

    /// Sets a setting to a number.
    pub fn config_set_int(&mut self, key: &str, value: i32)
        ensures
            final(self)@ == old(self)@.with(
                TablesText {
                    settings: old(self)@.tables.settings.insert(key@, int_text(value as int)),
                    ..old(self)@.tables
                },
            ),
    {
        let text = i64_to_string(value as i64);
        self.config_set_string(key, text.as_str());
    }

    /// A setting, or the default where there is none.
    pub fn config_get_string(&self, key: &str, default: &str) -> (r: String)
        ensures
            r@ == if self@.tables.settings.dom().contains(key@) {
                self@.tables.settings[key@]
            } else {
                default@
            },
    {
        match self.tables.settings.get(&copy_str(key)) {
            Some(v) => v.clone(),
            None => copy_str(default),
        }
    }

    /// A setting as a number, or the default where there is none.
    pub fn config_get_int(&self, key: &str, default: i32) -> (r: Result<i32, DbError>)
        ensures
            match r {
                Ok(n) => setting_int(self@.tables.settings, key@, default) == Ok::<
                    int,
                    DbErrorText,
                >(n as int),
                Err(e) => setting_int(self@.tables.settings, key@, default) == Err::<
                    int,
                    DbErrorText,
                >(e@),
            },
    {
        match self.tables.settings.get(&copy_str(key)) {
            Some(v) => match parse_i32(v.as_str()) {
                Ok(n) => Ok(n),
                Err(e) => {
                    let head = concat3("invalid config value for '", key, "': ");
                    Err(DbError::Other(concat2(head.as_str(), e.message())))
                },
            },
            None => Ok(default),
        }
    }

    /// Checks that the versions are those of this library.
    pub fn version_check(&self) -> (r: Result<(), DbError>)
        ensures
            match r {
                Ok(()) => versions(self@.tables) == Ok::<(), DbErrorText>(()),
                Err(e) => versions(self@.tables) == Err::<(), DbErrorText>(e@),
            },
    {
        let found = match self.config_get_int("db_version", -1) {
            Ok(n) => n,
            Err(e) => {
                return Err(e);
            },
        };
        if found != DB_VERSION {
            return Err(DbError::VersionMismatch { expected: DB_VERSION, found });
        }
        let found = match self.config_get_int("parser_version", -1) {
            Ok(n) => n,
            Err(e) => {
                return Err(e);
            },
        };
        if found != PARSER_VERSION {
            return Err(DbError::ParserVersionMismatch { expected: PARSER_VERSION, found });
        }
        Ok(())
    }

    // -------------------------------------------- nodes

    /// Adds a node, and gives back its identifier.
    ///
    /// Fails where a node in the directory has the name already.
    pub fn node_insert(
        &mut self,
        dir: TupId,
        name: &str,
        node_type: NodeType,
        mtime: i64,
        mtime_ns: i64,
        srcid: i64,
        display: Option<&str>,
        flags: Option<&str>,
    ) -> (r: Result<TupId, DbError>)
        ensures
            match (r, old(self)@.tables.new_row(
                dir,
                name@,
                node_type,
                mtime,
                mtime_ns,
                srcid,
                opt_str(display),
                opt_str(flags),
            )) {
                (Ok(id), Ok(row)) => {
                    &&& row.id == id
                    &&& !old(self)@.tables.nodes.dom().contains(id)
                    &&& final(self)@ == old(self)@.with(old(self)@.tables.put(row))
                },
                (Err(e), Err(t)) => e@ == t && final(self)@ == old(self)@,
                _ => false,
            },
    {
        if self.tables.nodes.find(dir, name).is_some() {
            return Err(
                DbError::Sqlite(copy_str("UNIQUE constraint failed: node.dir, node.name")),
            );
        }
        let id = match self.tables.nodes.next_id() {
            Some(id) => id,
            None => {
                return Err(DbError::Sqlite(copy_str("database or disk is full")));
            },
        };
        let row = NodeRow {
            id,
            dir,
            node_type,
            mtime,
            mtime_ns,
            srcid,
            name: copy_str(name),
            display: opt_copy(display),
            flags: opt_copy(flags),
        };
        let ghost nodes = self.tables.nodes@;
        let ghost text = row@;
        proof {
            assert(new_id(nodes) == Some(id));
            if is_taken(nodes, text) {
                let x = choose|x: TupId| #[trigger]
                    is_named(nodes, text.dir, text.name, x) && x != text.id;
                assert(is_named(nodes, dir, name@, x));
            }
        }
        let _ = self.tables.nodes.put(row);
        Ok(id)
    }

    /// The node with a name in a directory.
    pub fn node_select(&self, dir: TupId, name: &str) -> (r: Option<NodeRow>)
        ensures
            match r {
                Some(row) => {
                    &&& self@.tables.select(dir, name@) == Some(row.id)
                    &&& self@.tables.nodes.dom().contains(row.id)
                    &&& self@.tables.nodes[row.id] == row@
                    &&& row.dir == dir
                    &&& row@.name == name@
                },
                None => self@.tables.select(dir, name@) is None,
            },
    {
        match self.tables.nodes.find(dir, name) {
            Some(id) => self.node_select_by_id(id),
            None => None,
        }
    }

    /// The node with an identifier.
    pub fn node_select_by_id(&self, id: TupId) -> (r: Option<NodeRow>)
        ensures
            match r {
                Some(row) => {
                    &&& self@.tables.nodes.dom().contains(id)
                    &&& self@.tables.nodes[id] == row@
                    &&& row.id == id
                },
                None => !self@.tables.nodes.dom().contains(id),
            },
    {
        match self.tables.nodes.get(id) {
            Some(row) => Some(row.clone()),
            None => None,
        }
    }

    /// Removes a node, and says whether it was there.
    pub fn node_delete(&mut self, id: TupId) -> (r: bool)
        ensures
            r == old(self)@.tables.nodes.dom().contains(id),
            final(self)@ == old(self)@.with(old(self)@.tables.delete_node(id)),
    {
        self.tables.nodes.remove(id)
    }

    /// Puts a changed row in the place of the old one, whose name and directory
    /// it has.
    fn replace_row(&mut self, row: NodeRow)
        requires
            old(self)@.tables.nodes.dom().contains(row.id),
            old(self)@.tables.nodes[row.id].dir == row.dir,
            old(self)@.tables.nodes[row.id].name == row.name@,
        ensures
            final(self)@ == old(self)@.with(old(self)@.tables.put(row@)),
    {
        let ghost nodes = self.tables.nodes@;
        let ghost text = row@;
        let _ = self.tables.nodes.get(row.id);
        proof {
            assert(unique_names(nodes));
            if is_taken(nodes, text) {
                let x = choose|x: TupId| #[trigger]
                    is_named(nodes, text.dir, text.name, x) && x != text.id;
                assert(nodes.dom().contains(x) && nodes.dom().contains(text.id));
            }
        }
        let _ = self.tables.nodes.put(row);
    }

    /// Sets what a node is.
    pub fn node_set_type(&mut self, id: TupId, node_type: NodeType)
        ensures
            final(self)@ == old(self)@.with(old(self)@.tables.set_type(id, node_type)),
    {
        if let Some(r) = self.node_select_by_id(id) {
            let mut row = r;
            row.node_type = node_type;
            self.replace_row(row);
        }
    }

    /// Sets the name and the directory of a node.
    ///
    /// Fails where another node in the directory has the name already.
    pub fn node_set_name(&mut self, id: TupId, name: &str, dir: TupId) -> (r: Result<(), DbError>)
        ensures
            ({
                let t = old(self)@.tables;
                let row = RowText { name: name@, dir, ..t.nodes[id] };
                if !t.nodes.dom().contains(id) {
                    r is Ok && final(self)@ == old(self)@
                } else if is_taken(t.nodes, row) {
                    &&& r is Err
                    &&& r->Err_0@ == taken_error()
                    &&& final(self)@ == old(self)@
                } else {
                    r is Ok && final(self)@ == old(self)@.with(t.put(row))
                }
            }),
    {
        if let Some(r) = self.node_select_by_id(id) {
            let mut row = r;
            row.name = copy_str(name);
            row.dir = dir;
            if !self.tables.nodes.put(row) {
                return Err(
                    DbError::Sqlite(copy_str("UNIQUE constraint failed: node.dir, node.name")),
                );
            }
        }
        Ok(())
    }

    /// Sets the time of the last change of a node.
    pub fn node_set_mtime(&mut self, id: TupId, mtime: i64, mtime_ns: i64)
        ensures
            final(self)@ == old(self)@.with(old(self)@.tables.set_mtime(id, mtime, mtime_ns)),
    {
        if let Some(r) = self.node_select_by_id(id) {
            let mut row = r;
            row.mtime = mtime;
            row.mtime_ns = mtime_ns;
            self.replace_row(row);
        }
    }

    /// Sets the node that a node comes from.
    pub fn node_set_srcid(&mut self, id: TupId, srcid: i64)
        ensures
            final(self)@ == old(self)@.with(old(self)@.tables.set_srcid(id, srcid)),
    {
        if let Some(r) = self.node_select_by_id(id) {
            let mut row = r;
            row.srcid = srcid;
            self.replace_row(row);
        }
    }

    /// Sets what is shown in place of a command.
    pub fn node_set_display(&mut self, id: TupId, display: Option<&str>)
        ensures
            final(self)@ == old(self)@.with(old(self)@.tables.set_display(id, opt_str(display))),
    {
        if let Some(r) = self.node_select_by_id(id) {
            let mut row = r;
            row.display = opt_copy(display);
            self.replace_row(row);
        }
    }

    /// Sets the flags of a node.
    pub fn node_set_flags(&mut self, id: TupId, flags: Option<&str>)
        ensures
            final(self)@ == old(self)@.with(old(self)@.tables.set_flags(id, opt_str(flags))),
    {
        if let Some(r) = self.node_select_by_id(id) {
            let mut row = r;
            row.flags = opt_copy(flags);
            self.replace_row(row);
        }
    }

    /// The identifiers of all nodes in increasing order.
    pub fn node_ids(&self) -> (r: Vec<TupId>)
        ensures
            r@ == ascending(self@.tables.nodes.dom()),
            lists(r@, self@.tables.nodes.dom()),
            unique_names(self@.tables.nodes),
    {
        self.tables.nodes.ids()
    }

    /// The number of nodes.
    pub fn node_count(&self) -> (r: usize)
        ensures
            r == self@.tables.nodes.dom().len(),
    {
        self.tables.nodes.len()
    }

    /// A node that is there.
    pub(crate) fn row(&self, id: TupId) -> (r: &NodeRow)
        requires
            self@.tables.nodes.dom().contains(id),
        ensures
            r@ == self@.tables.nodes[id],
            r.id == id,
    {
        match self.tables.nodes.get(id) {
            Some(row) => row,
            None => {
                assert(false);
                vstd::pervasive::unreached()
            },
        }
    }

    // -------------------------------------------- links

    /// Adds a link; one that is there already stays.
    ///
    /// A link of a group is added for no command.
    pub fn link_insert(&mut self, from_id: TupId, to_id: TupId, link_type: LinkType)
        ensures
            final(self)@ == old(self)@.with(old(self)@.tables.link(from_id, to_id, link_type)),
    {
        match link_type {
            LinkType::Normal => {
                let ghost d = self.tables.normal@.dom();
                self.tables.normal.insert(LinkKey(from_id, to_id), ());
                assert(self.tables.normal@.dom() =~= d.insert((from_id, to_id)));
            },
            LinkType::Sticky => {
                let ghost d = self.tables.sticky@.dom();
                self.tables.sticky.insert(LinkKey(from_id, to_id), ());
                assert(self.tables.sticky@.dom() =~= d.insert((from_id, to_id)));
            },
            LinkType::Group => {
                let ghost d = self.tables.group@.dom();
                self.tables.group.insert(GroupKey(from_id, to_id, TupId::new(0)), ());
                assert(self.tables.group@.dom() =~= d.insert((from_id, to_id, TupId(0))));
            },
        }
    }

    /// Adds a link of a group for a command.
    pub fn link_insert_group(&mut self, from_id: TupId, to_id: TupId, cmdid: TupId)
        ensures
            final(self)@ == old(self)@.with(
                TablesText {
                    group: old(self)@.tables.group.insert((from_id, to_id, cmdid)),
                    ..old(self)@.tables
                },
            ),
    {
        let ghost d = self.tables.group@.dom();
        self.tables.group.insert(GroupKey(from_id, to_id, cmdid), ());
        assert(self.tables.group@.dom() =~= d.insert((from_id, to_id, cmdid)));
    }

    /// Whether a link is there.
    pub fn link_exists(&self, from_id: TupId, to_id: TupId, link_type: LinkType) -> (r: bool)
        ensures
            r == self@.tables.linked(from_id, to_id, link_type),
    {
        match link_type {
            LinkType::Normal => self.tables.normal.contains(&LinkKey(from_id, to_id)),
            LinkType::Sticky => self.tables.sticky.contains(&LinkKey(from_id, to_id)),
            LinkType::Group => {
                let n = self.tables.group.len();
                let ghost p = self.tables.group.pairs();
                let mut i: usize = 0;
                while i < n
                    invariant
                        i <= n,
                        n == self.tables.group.pairs().len(),
                        p == self.tables.group.pairs(),
                        link_type == LinkType::Group,
                        forall|j: int|
                            0 <= j < i ==> !((#[trigger] p[j]).0@.0 == from_id && p[j].0@.1
                                == to_id),
                    decreases n - i,
                {
                    let (key, _) = self.tables.group.at(i);
                    if key.0 == from_id && key.1 == to_id {
                        assert(self@.tables.group.contains((from_id, to_id, key.2)));
                        return true;
                    }
                    i += 1;
                }
                proof {
                    assert forall|c: TupId| !#[trigger] self@.tables.group.contains(
                        (from_id, to_id, c),
                    ) by {
                        if self@.tables.group.contains((from_id, to_id, c)) {
                            let j = choose|j: int|
                                0 <= j < p.len() && #[trigger] p[j].0@ == (from_id, to_id, c);
                            assert(p[j].0@.0 == from_id);
                        }
                    }
                }
                false
            },
        }
    }

    /// Removes a link, and says whether it was there. For a group this removes
    /// the links for all commands.
    pub fn link_remove(&mut self, from_id: TupId, to_id: TupId, link_type: LinkType) -> (r: bool)
        ensures
            r == old(self)@.tables.linked(from_id, to_id, link_type),
            final(self)@ == old(self)@.with(old(self)@.tables.unlink(from_id, to_id, link_type)),
    {
        let found = self.link_exists(from_id, to_id, link_type);
        match link_type {
            LinkType::Normal => {
                let ghost d = self.tables.normal@.dom();
                let _ = self.tables.normal.remove(&LinkKey(from_id, to_id));
                assert(self.tables.normal@.dom() =~= d.remove((from_id, to_id)));
            },
            LinkType::Sticky => {
                let ghost d = self.tables.sticky@.dom();
                let _ = self.tables.sticky.remove(&LinkKey(from_id, to_id));
                assert(self.tables.sticky@.dom() =~= d.remove((from_id, to_id)));
            },
            LinkType::Group => {
                let ghost t = self@.tables;
                self.tables.group = group_links_without(
                    &self.tables.group,
                    None,
                    Some((from_id, to_id)),
                );
                assert(self.tables.group@.dom() =~= t.unlink(from_id, to_id, link_type).group);
            },
        }
        found
    }

    /// Removes all links that lead to a node or from it, and those of groups
    /// that are there for it.
    pub fn links_delete(&mut self, id: TupId)
        ensures
            final(self)@ == old(self)@.with(old(self)@.tables.delete_links(id)),
    {
        let ghost t = self@.tables;
        self.tables.normal = links_without(&self.tables.normal, id);
        self.tables.sticky = links_without(&self.tables.sticky, id);
        self.tables.group = group_links_without(&self.tables.group, Some(id), None);
        assert(self.tables.group@.dom() =~= t.delete_links(id).group);
    }

    /// Removes all normal and sticky links that lead to a node or from it.
    pub fn link_delete_all(&mut self, id: TupId)
        ensures
            final(self)@ == old(self)@.with(old(self)@.tables.unlink_all(id)),
    {
        self.tables.normal = links_without(&self.tables.normal, id);
        self.tables.sticky = links_without(&self.tables.sticky, id);
    }

    /// The nodes to which normal links lead from a node.
    pub fn get_normal_outputs(&self, from_id: TupId) -> (r: Vec<TupId>)
        ensures
            r@ == ascending(outs(self@.tables.normal, from_id)),
            lists(r@, outs(self@.tables.normal, from_id)),
    {
        tos(&self.tables.normal, from_id)
    }

    /// The nodes from which normal links lead to a node.
    pub fn get_normal_inputs(&self, to_id: TupId) -> (r: Vec<TupId>)
        ensures
            r@ == ascending(ins(self@.tables.normal, to_id)),
            lists(r@, ins(self@.tables.normal, to_id)),
    {
        froms(&self.tables.normal, to_id)
    }

    /// The nodes from which sticky links lead to a node.
    pub fn get_sticky_inputs(&self, to_id: TupId) -> (r: Vec<TupId>)
        ensures
            r@ == ascending(ins(self@.tables.sticky, to_id)),
            lists(r@, ins(self@.tables.sticky, to_id)),
    {
        froms(&self.tables.sticky, to_id)
    }

    /// The nodes to which sticky links lead from a node.
    pub fn get_sticky_outputs(&self, from_id: TupId) -> (r: Vec<TupId>)
        ensures
            r@ == ascending(outs(self@.tables.sticky, from_id)),
            lists(r@, outs(self@.tables.sticky, from_id)),
    {
        tos(&self.tables.sticky, from_id)
    }

    /// The links of groups that lead from a node: where they lead, and for
    /// which command, in this order.
    pub fn get_group_links(&self, from_id: TupId) -> (r: Vec<(TupId, TupId)>)
        ensures
            forall|i: int, j: int|
                0 <= i < j < r@.len() ==> pair_lt(#[trigger] r@[i], #[trigger] r@[j]),
            forall|l: (TupId, TupId)| #[trigger]
                r@.contains(l) <==> self@.tables.group.contains((from_id, l.0, l.1)),
    {
        let n = self.tables.group.len();
        let ghost p = self.tables.group.pairs();
        let mut out: Vec<(TupId, TupId)> = Vec::new();
        let mut i: usize = 0;
        while i < n
            invariant
                i <= n,
                n == self.tables.group.pairs().len(),
                p == self.tables.group.pairs(),
                sorted_keys(p),
                forall|a: int, b: int|
                    0 <= a < b < out@.len() ==> pair_lt(#[trigger] out@[a], #[trigger] out@[b]),
                forall|j: int|
                    0 <= j < out@.len() ==> exists|k: int|
                        0 <= k < i && (#[trigger] p[k]).0@ == (
                            from_id,
                            (#[trigger] out@[j]).0,
                            out@[j].1,
                        ),
                forall|k: int|
                    0 <= k < i && (#[trigger] p[k]).0@.0 == from_id ==> out@.contains(
                        (p[k].0@.1, p[k].0@.2),
                    ),
            decreases n - i,
        {
            let (key, _) = self.tables.group.at(i);
            let ghost before = out@;
            if key.0 == from_id {
                out.push((key.1, key.2));
                proof {
                    assert(out@[before.len() as int] == (key.1, key.2));
                    assert forall|a: int, b: int| 0 <= a < b < out@.len() implies pair_lt(
                        #[trigger] out@[a],
                        #[trigger] out@[b],
                    ) by {
                        if b == before.len() {
                            let k = choose|k: int|
                                0 <= k < i && (#[trigger] p[k]).0@ == (
                                    from_id,
                                    before[a].0,
                                    before[a].1,
                                );
                            assert(GroupKey::lt(p[k].0@, p[i as int].0@));
                        }
                    }
                    assert forall|j: int| 0 <= j < out@.len() implies exists|k: int|
                        0 <= k < i + 1 && (#[trigger] p[k]).0@ == (
                            from_id,
                            (#[trigger] out@[j]).0,
                            out@[j].1,
                        ) by {
                        if j < before.len() {
                            let k = choose|k: int|
                                0 <= k < i && (#[trigger] p[k]).0@ == (
                                    from_id,
                                    before[j].0,
                                    before[j].1,
                                );
                            assert(p[k].0@ == (from_id, out@[j].0, out@[j].1));
                        } else {
                            assert(p[i as int].0@ == (from_id, out@[j].0, out@[j].1));
                        }
                    }
                    assert forall|k: int| 0 <= k < i + 1 && (#[trigger] p[k]).0@.0
                        == from_id implies out@.contains((p[k].0@.1, p[k].0@.2)) by {
                        if k < i {
                            let j = choose|j: int|
                                0 <= j < before.len() && before[j] == (p[k].0@.1, p[k].0@.2);
                            assert(out@[j] == (p[k].0@.1, p[k].0@.2));
                        }
                    }
                }
            }
            i += 1;
        }
        proof {
            assert forall|l: (TupId, TupId)| #[trigger]
                out@.contains(l) <==> self@.tables.group.contains((from_id, l.0, l.1)) by {
                if out@.contains(l) {
                    let j = choose|j: int| 0 <= j < out@.len() && out@[j] == l;
                    let k = choose|k: int|
                        0 <= k < n && (#[trigger] p[k]).0@ == (from_id, out@[j].0, out@[j].1);
                    assert(self.tables.group@.dom().contains(p[k].0@));
                }
                if self@.tables.group.contains((from_id, l.0, l.1)) {
                    let k = choose|k: int|
                        0 <= k < p.len() && #[trigger] p[k].0@ == (from_id, l.0, l.1);
                    assert(p[k].0@.0 == from_id);
                }
            }
        }
        out
    }

    // -------------------------------------------- pending work

    /// Puts a node in a list of pending work.
    pub fn flag_add(&mut self, id: TupId, flag: TupFlags)
        ensures
            final(self)@ == old(self)@.with(old(self)@.tables.flag(id, flag)),
    {
        let ghost t = self@.tables;
        self.tables.flags.insert(id, flag);
        assert(self@.tables.flags =~= t.flag(id, flag).flags);
    }

    /// Takes a node out of a list of pending work.
    pub fn flag_remove(&mut self, id: TupId, flag: TupFlags)
        ensures
            final(self)@ == old(self)@.with(old(self)@.tables.unflag(id, flag)),
    {
        let ghost t = self@.tables;
        self.tables.flags.remove(id, flag);
        assert(self@.tables.flags =~= t.unflag(id, flag).flags);
    }

    /// Takes a node out of all lists of pending work.
    pub(crate) fn flags_remove_all(&mut self, id: TupId)
        ensures
            final(self)@ == old(self)@.with(old(self)@.tables.unflag_all(id)),
    {
        let ghost t = self@.tables;
        self.flag_remove(id, TupFlags::Config);
        self.flag_remove(id, TupFlags::Create);
        self.flag_remove(id, TupFlags::Modify);
        self.flag_remove(id, TupFlags::Variant);
        self.flag_remove(id, TupFlags::Transient);
        proof {
            assert forall|g: TupFlags| #[trigger] (self@.tables.flags)(g) == (t.flags)(g).remove(
                id,
            ) by {
                match g {
                    TupFlags::Config => {},
                    TupFlags::Create => {},
                    TupFlags::Modify => {},
                    TupFlags::Variant => {},
                    TupFlags::Transient => {},
                }
            }
            assert(self@.tables.flags =~= t.unflag_all(id).flags);
        }
    }

    /// Whether a node is in a list of pending work.
    pub fn flag_check(&self, id: TupId, flag: TupFlags) -> (r: bool)
        ensures
            r == (self@.tables.flags)(flag).contains(id),
    {
        self.tables.flags.list(flag).contains(&id)
    }

    /// Whether no work is pending.
    pub fn flags_empty(&self) -> (r: bool)
        ensures
            r == forall|f: TupFlags| #[trigger] (self@.tables.flags)(f) == Set::<TupId>::empty(),
    {
        let empty = self.list_is_empty(TupFlags::Create) && self.list_is_empty(TupFlags::Modify)
            && self.list_is_empty(TupFlags::Config) && self.list_is_empty(TupFlags::Variant)
            && self.list_is_empty(TupFlags::Transient);
        proof {
            if empty {
                assert forall|f: TupFlags| #[trigger]
                    (self@.tables.flags)(f) == Set::<TupId>::empty() by {
                    match f {
                        TupFlags::Config => {},
                        TupFlags::Create => {},
                        TupFlags::Modify => {},
                        TupFlags::Variant => {},
                        TupFlags::Transient => {},
                    }
                }
            }
        }
        empty
    }

    fn list_is_empty(&self, f: TupFlags) -> (r: bool)
        ensures
            r == ((self@.tables.flags)(f) == Set::<TupId>::empty()),
    {
        let m = self.tables.flags.list(f);
        let n = m.len();
        proof {
            if n == 0 {
                assert(m@.dom() =~= Set::empty());
            }
        }
        n == 0
    }

    /// Empties all lists of pending work.
    pub fn flags_clear_all(&mut self)
        ensures
            final(self)@ == old(self)@.with(
                TablesText { flags: |f: TupFlags| Set::empty(), ..old(self)@.tables },
            ),
    {
        self.tables.flags = FlagLists::new();
        assert(self@.tables.flags =~= (|f: TupFlags| Set::<TupId>::empty()));
    }

    /// The nodes of a list of pending work, in increasing order.
    pub fn flag_list(&self, flag: TupFlags) -> (r: Vec<TupId>)
        ensures
            r@ == ascending((self@.tables.flags)(flag)),
            lists(r@, (self@.tables.flags)(flag)),
    {
        crate::ids::ids_of(self.tables.flags.list(flag))
    }

    /// Puts the nodes of a list in a list of pending work, and gives the number
    /// of those that were not there.
    pub(crate) fn flag_add_all(&mut self, ids: &Vec<TupId>, flag: TupFlags) -> (r: u64)
        ensures
            final(self)@ == old(self)@.with(old(self)@.tables.flag_set(ids@.to_set(), flag)),
            ids@.no_duplicates() ==> r == ids@.to_set().difference(
                (old(self)@.tables.flags)(flag),
            ).len(),
    {
        let ghost t = self@.tables;
        let ghost before = (t.flags)(flag);
        let mut count: u64 = 0;
        let mut i: usize = 0;
        proof {
            assert(t.flag_set(ids@.take(0).to_set(), flag).flags =~= t.flags);
            assert(ids@.take(0).to_set().difference(before) =~= Set::empty());
        }
        while i < ids.len()
            invariant
                i <= ids.len(),
                t == old(self)@.tables,
                before == (t.flags)(flag),
                self@ == old(self)@.with(t.flag_set(ids@.take(i as int).to_set(), flag)),
                count <= i,
                ids@.no_duplicates() ==> count == ids@.take(i as int).to_set().difference(
                    before,
                ).len(),
            decreases ids.len() - i,
        {
            let id = ids[i];
            let ghost pre = ids@.take(i as int).to_set();
            let ghost next = ids@.take(i + 1).to_set();
            proof {
                lemma_take_to_set(ids@, i as int);
            }
            if !self.flag_check(id, flag) {
                count = count + 1;
                proof {
                    assert(!pre.contains(id) && !before.contains(id));
                    assert(next.difference(before) =~= pre.difference(before).insert(id));
                    crate::types::ids_are_finite(pre.difference(before));
                }
            } else {
                proof {
                    if ids@.no_duplicates() {
                        assert(!pre.contains(id)) by {
                            if pre.contains(id) {
                                let k = choose|k: int|
                                    0 <= k < ids@.take(i as int).len() && ids@.take(i as int)[k]
                                        == id;
                                assert(ids@[k] == ids@[i as int]);
                            }
                        }
                        assert(next.difference(before) =~= pre.difference(before));
                    }
                }
            }
            self.flag_add(id, flag);
            proof {
                assert(t.flag_set(pre, flag).flag(id, flag).flags =~= t.flag_set(
                    next,
                    flag,
                ).flags) by {
                    assert(before.union(pre).insert(id) =~= before.union(next));
                }
            }
            i += 1;
        }
        assert(ids@.take(ids@.len() as int) =~= ids@);
        count
    }

    // -------------------------------------------- variables

    /// Sets the value of a variable.
    pub fn var_set(&mut self, id: TupId, value: &str)
        ensures
            final(self)@ == old(self)@.with(
                TablesText {
                    vars: old(self)@.tables.vars.insert(id, value@),
                    ..old(self)@.tables
                },
            ),
    {
        let v = copy_str(value);
        proof {
            lemma_deep_insert(self.tables.vars@, id, v);
        }
        self.tables.vars.insert(id, v);
    }

    /// The value of a variable.
    pub fn var_get(&self, id: TupId) -> (r: Option<String>)
        ensures
            match r {
                Some(v) => self@.tables.vars.dom().contains(id) && self@.tables.vars[id] == v@,
                None => !self@.tables.vars.dom().contains(id),
            },
    {
        match self.tables.vars.get(&id) {
            Some(v) => Some(v.clone()),
            None => None,
        }
    }

    /// Removes a variable, and says whether it was there.
    pub fn var_delete(&mut self, id: TupId) -> (r: bool)
        ensures
            r == old(self)@.tables.vars.dom().contains(id),
            final(self)@ == old(self)@.with(
                TablesText { vars: old(self)@.tables.vars.remove(id), ..old(self)@.tables },
            ),
    {
        proof {
            lemma_deep_remove(self.tables.vars@, id);
        }
        self.tables.vars.remove(&id).is_some()
    }
}

pub open spec fn pair_lt(a: (TupId, TupId), b: (TupId, TupId)) -> bool {
    a.0.0 < b.0.0 || (a.0 == b.0 && a.1.0 < b.1.0)
}

/// What a check of the versions finds.
pub open spec fn versions(t: TablesText) -> Result<(), DbErrorText> {
    match setting_int(t.settings, "db_version"@, -1i32) {
        Err(e) => Err(e),
        Ok(found) => if found != DB_VERSION {
            Err(DbErrorText::VersionMismatch { expected: DB_VERSION, found: found as i32 })
        } else {
            match setting_int(t.settings, "parser_version"@, -1i32) {
                Err(e) => Err(e),
                Ok(found) => if found != PARSER_VERSION {
                    Err(
                        DbErrorText::ParserVersionMismatch {
                            expected: PARSER_VERSION,
                            found: found as i32,
                        },
                    )
                } else {
                    Ok(())
                },
            }
        },
    }
}

pub proof fn lemma_take_to_set(ids: Seq<TupId>, i: int)
    requires
        0 <= i < ids.len(),
    ensures
        ids.take(i + 1).to_set() == ids.take(i).to_set().insert(ids[i]),
{
    let a = ids.take(i);
    let b = ids.take(i + 1);
    assert forall|x: TupId| b.to_set().contains(x) <==> a.to_set().insert(ids[i]).contains(x) by {
        if a.contains(x) {
            let k = choose|k: int| 0 <= k < a.len() && a[k] == x;
            assert(b[k] == x);
        }
        if b.contains(x) {
            let k = choose|k: int| 0 <= k < b.len() && b[k] == x;
            if k < i {
                assert(a[k] == x);
            }
        }
        assert(b[i] == ids[i]);
    }
    assert(b.to_set() =~= a.to_set().insert(ids[i]));
}

} // verus!
