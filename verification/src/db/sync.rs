//! What is on disk comes into the database.
use vstd::prelude::*;

use crate::db::entry::{fresh, CacheText, EntryCache, TupEntry};
use crate::db::errors::{DbError, DbErrorText};
use crate::db::nodes::{world, World};
use crate::db::rows::{row_texts, NodeRow, RowText};
use crate::db::sweep::sweep;
use crate::db::tables::{dot, dot_dt, outs, DbText, TablesText, TupDb, TupFlags};
use crate::ordmap::{text_lt, text_order, Order};
use crate::text::{same, str_first_is};
use crate::types::{NodeType, TupId};

verus! {

// ------------------------------------------------ the files of a directory

/// An entry of a directory on disk.
#[derive(Debug)]
pub struct DirEntry {
    pub name: String,
    pub is_dir: bool,
    pub mtime: i64,
    pub mtime_ns: i64,
}

/// An entry as texts.
#[verifier::ext_equal]
pub struct DirText {
    pub name: Seq<char>,
    pub is_dir: bool,
    pub mtime: i64,
    pub mtime_ns: i64,
}

impl View for DirEntry {
    type V = DirText;

    open spec fn view(&self) -> DirText {
        DirText {
            name: self.name@,
            is_dir: self.is_dir,
            mtime: self.mtime,
            mtime_ns: self.mtime_ns,
        }
    }
}

pub open spec fn dir_texts(v: Seq<DirEntry>) -> Seq<DirText> {
    Seq::new(v.len(), |i: int| v[i]@)
}

/// Whether a name is hidden: it begins with a dot.
pub open spec fn is_hidden(name: Seq<char>) -> bool {
    name.len() > 0 && name[0] == '.'
}

/// A list with an entry after the last one whose name is not above its own.
pub open spec fn placed(s: Seq<DirText>, e: DirText) -> Seq<DirText>
    decreases s.len(),
{
    if s.len() == 0 || !text_lt(e.name, s.last().name) {
        s.push(e)
    } else {
        placed(s.drop_last(), e).push(s.last())
    }
}

/// The entries that are not hidden, in the order of their names.
pub open spec fn arranged(s: Seq<DirText>) -> Seq<DirText>
    decreases s.len(),
{
    if s.len() == 0 {
        Seq::empty()
    } else {
        let before = arranged(s.drop_last());
        if is_hidden(s.last().name) {
            before
        } else {
            placed(before, s.last())
        }
    }
}

/// Whether no name of a list is above one that follows it.
pub open spec fn in_name_order(s: Seq<DirText>) -> bool {
    forall|i: int, j: int|
        0 <= i < j < s.len() ==> !text_lt((#[trigger] s[j]).name, (#[trigger] s[i]).name)
}

proof fn lemma_placed(s: Seq<DirText>, e: DirText)
    requires
        in_name_order(s),
    ensures
        in_name_order(placed(s, e)),
        forall|x: DirText| #[trigger] placed(s, e).contains(x) <==> s.contains(x) || x == e,
    decreases s.len(),
{
    let r = placed(s, e);
    if s.len() == 0 || !text_lt(e.name, s.last().name) {
        assert forall|i: int, j: int| 0 <= i < j < r.len() implies !text_lt(
            (#[trigger] r[j]).name,
            (#[trigger] r[i]).name,
        ) by {
            if j == s.len() && i < s.len() - 1 {
                let last = s[s.len() - 1];
                assert(r[i] == s[i]);
                assert(!text_lt(last.name, s[i].name));
                if text_lt(e.name, s[i].name) {
                    crate::ordmap::lemma_text_lt_total(s[i].name, last.name);
                    if text_lt(s[i].name, last.name) {
                        crate::ordmap::lemma_text_lt_transitive(e.name, s[i].name, last.name);
                    }
                }
            }
        }
        assert forall|x: DirText| #[trigger] r.contains(x) <==> s.contains(x) || x == e by {
            if s.contains(x) {
                let k = choose|k: int| 0 <= k < s.len() && s[k] == x;
                assert(r[k] == x);
            }
            assert(r[s.len() as int] == e);
            if r.contains(x) {
                let k = choose|k: int| 0 <= k < r.len() && r[k] == x;
                if k < s.len() {
                    assert(s[k] == x);
                }
            }
        }
    } else {
        let b = s.drop_last();
        let last = s.last();
        assert(in_name_order(b)) by {
            assert forall|i: int, j: int| 0 <= i < j < b.len() implies !text_lt(
                (#[trigger] b[j]).name,
                (#[trigger] b[i]).name,
            ) by {
                assert(b[i] == s[i] && b[j] == s[j]);
            }
        }
        lemma_placed(b, e);
        let p = placed(b, e);
        assert forall|i: int, j: int| 0 <= i < j < r.len() implies !text_lt(
            (#[trigger] r[j]).name,
            (#[trigger] r[i]).name,
        ) by {
            if j == p.len() {
                assert(p.contains(p[i]));
                if p[i] == e {
                    if text_lt(last.name, e.name) {
                        crate::ordmap::lemma_text_lt_transitive(last.name, e.name, last.name);
                        crate::ordmap::lemma_text_lt_irreflexive(last.name);
                    }
                } else {
                    assert(b.contains(p[i]));
                    let k = choose|k: int| 0 <= k < b.len() && b[k] == p[i];
                    assert(s[k] == p[i]);
                    assert(s[s.len() - 1] == last);
                }
            } else {
                assert(r[i] == p[i] && r[j] == p[j]);
            }
        }
        assert forall|x: DirText| #[trigger] r.contains(x) <==> s.contains(x) || x == e by {
            if r.contains(x) {
                let k = choose|k: int| 0 <= k < r.len() && r[k] == x;
                if k < p.len() {
                    assert(p.contains(p[k]));
                    if x != e {
                        let m = choose|m: int| 0 <= m < b.len() && b[m] == x;
                        assert(s[m] == x);
                    }
                } else {
                    assert(s[s.len() - 1] == x);
                }
            }
            if s.contains(x) {
                let k = choose|k: int| 0 <= k < s.len() && s[k] == x;
                if k < b.len() {
                    assert(b[k] == x);
                    assert(p.contains(x));
                    let m = choose|m: int| 0 <= m < p.len() && p[m] == x;
                    assert(r[m] == x);
                } else {
                    assert(r[p.len() as int] == x);
                }
            }
            if x == e {
                assert(p.contains(x));
                let m = choose|m: int| 0 <= m < p.len() && p[m] == x;
                assert(r[m] == x);
            }
        }
    }
}

/// What is arranged is in the order of the names, and holds the entries that
/// are not hidden.
pub proof fn arranged_entries_are_in_order(s: Seq<DirText>)
    ensures
        in_name_order(arranged(s)),
        forall|x: DirText| #[trigger]
            arranged(s).contains(x) <==> s.contains(x) && !is_hidden(x.name),
    decreases s.len(),
{
    if s.len() > 0 {
        let b = s.drop_last();
        arranged_entries_are_in_order(b);
        lemma_placed(arranged(b), s.last());
        assert forall|x: DirText| #[trigger]
            arranged(s).contains(x) <==> s.contains(x) && !is_hidden(x.name) by {
            if s.contains(x) {
                let k = choose|k: int| 0 <= k < s.len() && s[k] == x;
                if k < b.len() {
                    assert(b[k] == x);
                }
            }
            if b.contains(x) {
                let k = choose|k: int| 0 <= k < b.len() && b[k] == x;
                assert(s[k] == x);
            }
            assert(s[s.len() - 1] == s.last());
            assert(arranged(b).contains(x) <==> b.contains(x) && !is_hidden(x.name));
        }
    }
}

/// The entries of a directory that matter, in the order of their names.
pub fn arrange_entries(entries: Vec<DirEntry>) -> (r: Vec<DirEntry>)
    ensures
        dir_texts(r@) == arranged(dir_texts(entries@)),
{
    let ghost all = dir_texts(entries@);
    let mut out: Vec<DirEntry> = Vec::new();
    let mut i: usize = 0;
    proof {
        assert(all.take(0) =~= Seq::empty());
        assert(dir_texts(out@) =~= Seq::empty());
    }
    while i < entries.len()
        invariant
            i <= entries.len(),
            all == dir_texts(entries@),
            dir_texts(out@) == arranged(all.take(i as int)),
        decreases entries.len() - i,
    {
        let e = DirEntry {
            name: entries[i].name.clone(),
            is_dir: entries[i].is_dir,
            mtime: entries[i].mtime,
            mtime_ns: entries[i].mtime_ns,
        };
        proof {
            assert(all.take(i + 1).drop_last() =~= all.take(i as int));
            assert(all.take(i + 1).last() == e@);
        }
        if !str_first_is(e.name.as_str(), '.') {
            let ghost base = dir_texts(out@);
            let mut k: usize = out.len();
            proof {
                assert(base.take(k as int) =~= base);
                assert(base.skip(k as int) =~= Seq::empty());
                assert(placed(base.take(k as int), e@) + base.skip(k as int) =~= placed(base, e@));
            }
            let mut going = true;
            while going && k > 0
                invariant
                    k <= out.len(),
                    base == dir_texts(out@),
                    placed(base.take(k as int), e@) + base.skip(k as int) == placed(base, e@),
                    !going && k > 0 ==> !text_lt(e@.name, base[k - 1].name),
                decreases k, (if going { 1int } else { 0int }),
            {
                assert(base[k - 1] == out@[k - 1]@);
                match text_order(e.name.as_str(), out[k - 1].name.as_str()) {
                    Order::Less => {
                        proof {
                            let a = base.take(k as int);
                            let b = base.take(k - 1);
                            assert(a.drop_last() =~= b);
                            assert(a.last() == base[k - 1]);
                            assert(placed(b, e@).push(base[k - 1]) + base.skip(k as int) =~= placed(
                                b,
                                e@,
                            ) + base.skip(k - 1));
                        }
                        k = k - 1;
                    },
                    Order::Equal => {
                        proof {
                            crate::ordmap::lemma_text_lt_irreflexive(e@.name);
                        }
                        going = false;
                    },
                    Order::Greater => {
                        proof {
                            if text_lt(e@.name, base[k - 1].name) {
                                crate::ordmap::lemma_text_lt_transitive(
                                    e@.name,
                                    base[k - 1].name,
                                    e@.name,
                                );
                                crate::ordmap::lemma_text_lt_irreflexive(e@.name);
                            }
                        }
                        going = false;
                    },
                }
            }
            let ghost before = out@;
            out.insert(k, e);
            proof {
                assert(placed(base.take(k as int), e@) == base.take(k as int).push(e@)) by {
                    if k > 0 {
                        assert(base.take(k as int).last() == base[k - 1]);
                    }
                }
                assert(dir_texts(out@) =~= base.take(k as int).push(e@) + base.skip(k as int));
            }
        }
        i += 1;
    }
    assert(all.take(all.len() as int) =~= all);
    out
}

/// Whether a file of this name holds rules.
pub open spec fn is_tupfile(name: Seq<char>) -> bool {
    name == "Tupfile"@ || name == "Tupfile.lua"@ || name == "Tuprules.tup"@
}

/// Whether a file of this name holds rules.
pub fn is_tupfile_name(name: &str) -> (r: bool)
    ensures
        r == is_tupfile(name@),
{
    same(name, "Tupfile") || same(name, "Tupfile.lua") || same(name, "Tuprules.tup")
}

// ------------------------------------------------ a tree on disk

/// A file or a directory on disk.
#[derive(Debug)]
pub struct FsNode {
    pub name: String,
    pub kind: FsKind,
}

/// What it is.
#[derive(Debug)]
pub enum FsKind {
    /// A file with the time of its last change.
    File { mtime: i64, mtime_ns: i64 },
    /// A directory: the times of the last changes of its `Tupfile` and its
    /// `Tupfile.lua`, where they are there, and its entries.
    Dir {
        tupfile: Option<(i64, i64)>,
        tupfile_lua: Option<(i64, i64)>,
        entries: Vec<FsNode>,
    },
}

/// Whether a directory has a `Tupfile` or a `Tupfile.lua`.
pub fn has_tupfile(tupfile: Option<(i64, i64)>, tupfile_lua: Option<(i64, i64)>) -> (r: bool)
    ensures
        r == (tupfile is Some || tupfile_lua is Some),
{
    tupfile.is_some() || tupfile_lua.is_some()
}

/// How often what was found. A count stays at its limit.
#[derive(Debug, Clone, Copy, PartialEq, Eq, Structural)]
pub struct SyncResult {
    /// New files.
    pub files_added: usize,
    /// Files that changed.
    pub files_modified: usize,
    /// Files and directories that are gone.
    pub files_deleted: usize,
    /// New directories.
    pub dirs_added: usize,
    /// How often a directory was marked as to be parsed.
    pub dirs_flagged: usize,
}

pub open spec fn no_counts() -> SyncResult {
    SyncResult {
        files_added: 0,
        files_modified: 0,
        files_deleted: 0,
        dirs_added: 0,
        dirs_flagged: 0,
    }
}

impl Default for SyncResult {
    fn default() -> (r: Self)
        ensures
            r == no_counts(),
    {
        SyncResult {
            files_added: 0,
            files_modified: 0,
            files_deleted: 0,
            dirs_added: 0,
            dirs_flagged: 0,
        }
    }
}

/// One more, as long as that is a number.
pub open spec fn one_more(n: usize) -> usize {
    if n == usize::MAX {
        n
    } else {
        (n + 1) as usize
    }
}

fn count_up(n: usize) -> (r: usize)
    ensures
        r == one_more(n),
{
    if n == usize::MAX {
        n
    } else {
        n + 1
    }
}

/// The state during a synchronization: the database and the cache, the counts,
/// and the error that ended it.
#[verifier::ext_equal]
pub struct SyncState {
    pub world: World,
    pub counts: SyncResult,
    pub error: Option<DbErrorText>,
}

/// Whether a name is that of a virtual directory.
pub open spec fn is_virtual(name: Seq<char>) -> bool {
    name == "$"@ || name == "/"@ || name == "^"@
}

fn is_virtual_name(name: &str) -> (r: bool)
    ensures
        r == is_virtual(name@),
{
    same(name, "$") || same(name, "/") || same(name, "^")
}

/// The row with a name, apart from virtual directories.
pub open spec fn row_named(rows: Seq<RowText>, name: Seq<char>) -> Option<RowText>
    decreases rows.len(),
{
    if rows.len() == 0 {
        None
    } else if rows.last().name == name && !is_virtual(name) {
        Some(rows.last())
    } else {
        row_named(rows.drop_last(), name)
    }
}

fn find_row<'a>(rows: &'a Vec<NodeRow>, name: &str) -> (r: Option<&'a NodeRow>)
    ensures
        match r {
            Some(row) => row_named(row_texts(rows@), name@) == Some(row@),
            None => row_named(row_texts(rows@), name@) is None,
        },
{
    let ghost all = row_texts(rows@);
    let hidden = is_virtual_name(name);
    let mut i: usize = rows.len();
    assert(all.take(all.len() as int) =~= all);
    while i > 0
        invariant
            i <= rows.len(),
            all == row_texts(rows@),
            hidden == is_virtual(name@),
            row_named(all, name@) == row_named(all.take(i as int), name@),
        decreases i,
    {
        proof {
            assert(all.take(i as int).drop_last() =~= all.take(i - 1));
            assert(all.take(i as int).last() == rows@[i - 1]@);
        }
        i = i - 1;
        if !hidden && same(rows[i].name.as_str(), name) {
            return Some(&rows[i]);
        }
    }
    None
}

impl TablesText {
    /// A file with rules is looked at: whether it is new or changed.
    pub open spec fn check_rules_file(
        self,
        dir: TupId,
        name: Seq<char>,
        found: Option<(i64, i64)>,
    ) -> (TablesText, Result<bool, DbErrorText>) {
        match found {
            None => (self, Ok(false)),
            Some((mtime, mtime_ns)) => match self.select(dir, name) {
                Some(id) => if self.nodes[id].mtime != mtime || self.nodes[id].mtime_ns
                    != mtime_ns {
                    (self.set_mtime(id, mtime, mtime_ns), Ok(true))
                } else {
                    (self, Ok(false))
                },
                None => match self.new_row(
                    dir,
                    name,
                    NodeType::File,
                    mtime,
                    mtime_ns,
                    -1i64,
                    None,
                    None,
                ) {
                    Ok(row) => (self.put(row), Ok(true)),
                    Err(e) => (self, Err(e)),
                },
            },
        }
    }

    /// The files with rules of a directory are looked at: whether the directory
    /// is to be parsed, because one of them is new or changed, or because it
    /// was to be parsed before.
    pub open spec fn check_tupfiles(
        self,
        dir: TupId,
        tupfile: Option<(i64, i64)>,
        tupfile_lua: Option<(i64, i64)>,
    ) -> (TablesText, Result<bool, DbErrorText>) {
        let (t, r) = self.check_rules_file(dir, "Tupfile"@, tupfile);
        if r != Ok::<bool, DbErrorText>(false) {
            (t, r)
        } else {
            let (u, s) = t.check_rules_file(dir, "Tupfile.lua"@, tupfile_lua);
            if s != Ok::<bool, DbErrorText>(false) {
                (u, s)
            } else {
                (u, Ok((u.flags)(TupFlags::Create).contains(dir)))
            }
        }
    }
}

fn check_rules_file(
    db: &mut TupDb,
    dir_id: TupId,
    name: &str,
    found: Option<(i64, i64)>,
) -> (r: Result<bool, DbError>)
    ensures
        ({
            let (t, s) = old(db)@.tables.check_rules_file(dir_id, name@, found);
            &&& final(db)@ == old(db)@.with(t)
            &&& match (r, s) {
                (Ok(a), Ok(b)) => a == b,
                (Err(e), Err(f)) => e@ == f,
                _ => false,
            }
        }),
{
    match found {
        None => Ok(false),
        Some((mtime, mtime_ns)) => match db.node_select(dir_id, name) {
            Some(row) => {
                if row.mtime != mtime || row.mtime_ns != mtime_ns {
                    db.node_set_mtime(row.id, mtime, mtime_ns);
                    Ok(true)
                } else {
                    Ok(false)
                }
            },
            None => match db.node_insert(
                dir_id,
                name,
                NodeType::File,
                mtime,
                mtime_ns,
                -1,
                None,
                None,
            ) {
                Ok(_) => Ok(true),
                Err(e) => Err(e),
            },
        },
    }
}

/// Looks at the files with rules of a directory, and says whether the directory
/// is to be parsed.
pub fn check_tupfile_changed(
    db: &mut TupDb,
    dir_id: TupId,
    tupfile: Option<(i64, i64)>,
    tupfile_lua: Option<(i64, i64)>,
) -> (r: Result<bool, DbError>)
    ensures
        ({
            let (t, s) = old(db)@.tables.check_tupfiles(dir_id, tupfile, tupfile_lua);
            &&& final(db)@ == old(db)@.with(t)
            &&& match (r, s) {
                (Ok(a), Ok(b)) => a == b,
                (Err(e), Err(f)) => e@ == f,
                _ => false,
            }
        }),
{
    match check_rules_file(db, dir_id, "Tupfile", tupfile) {
        Ok(false) => {},
        Ok(true) => {
            return Ok(true);
        },
        Err(e) => {
            return Err(e);
        },
    }
    match check_rules_file(db, dir_id, "Tupfile.lua", tupfile_lua) {
        Ok(false) => {},
        Ok(true) => {
            return Ok(true);
        },
        Err(e) => {
            return Err(e);
        },
    }
    Ok(db.flag_check(dir_id, TupFlags::Create))
}

impl SyncState {
    pub open spec fn with_tables(self, tables: TablesText) -> SyncState {
        SyncState { world: World { tables, ..self.world }, ..self }
    }

    pub open spec fn modified(self) -> SyncState {
        SyncState {
            counts: SyncResult {
                files_modified: one_more(self.counts.files_modified),
                ..self.counts
            },
            ..self
        }
    }

    pub open spec fn deleted(self) -> SyncState {
        SyncState {
            counts: SyncResult {
                files_deleted: one_more(self.counts.files_deleted),
                ..self.counts
            },
            ..self
        }
    }

    /// A directory is to be parsed.
    pub open spec fn to_parse(self, dir: TupId) -> SyncState {
        SyncState {
            counts: SyncResult {
                dirs_flagged: one_more(self.counts.dirs_flagged),
                ..self.counts
            },
            ..self.with_tables(self.world.tables.flag(dir, TupFlags::Create))
        }
    }

    /// A file with rules makes its directory one to be parsed.
    pub open spec fn to_parse_for(self, name: Seq<char>, dir: TupId) -> SyncState {
        if is_tupfile(name) {
            self.to_parse(dir)
        } else {
            self
        }
    }

    /// A file is on disk.
    pub open spec fn file(
        self,
        dir: TupId,
        rows: Seq<RowText>,
        name: Seq<char>,
        mtime: i64,
        mtime_ns: i64,
    ) -> SyncState {
        let t = self.world.tables;
        match row_named(rows, name) {
            Some(row) => if row.node_type == NodeType::GhostNode {
                SyncState {
                    world: World {
                        tables: t.set_type(row.id, NodeType::File).set_mtime(
                            row.id,
                            mtime,
                            mtime_ns,
                        ).flag(row.id, TupFlags::Modify),
                        cache: self.world.cache.set_type(row.id, NodeType::File),
                    },
                    ..self.modified()
                }
            } else if row.mtime != mtime || row.mtime_ns != mtime_ns {
                let changed = t.set_mtime(row.id, mtime, mtime_ns).flag(
                    row.id,
                    TupFlags::Modify,
                ).flag_dependents(row.id);
                self.modified().with_tables(
                    changed.flag_set(outs(changed.sticky, row.id), TupFlags::Modify),
                ).to_parse_for(name, dir)
            } else {
                self
            },
            None => match t.new_row(
                dir,
                name,
                NodeType::File,
                mtime,
                mtime_ns,
                -1i64,
                None,
                None,
            ) {
                Err(e) => SyncState { error: Some(e), ..self },
                Ok(row) => {
                    let added = SyncState {
                        counts: SyncResult {
                            files_added: one_more(self.counts.files_added),
                            ..self.counts
                        },
                        ..self.with_tables(t.put(row))
                    }.to_parse_for(name, dir);
                    added.with_tables(added.world.tables.flag(dir, TupFlags::Create))
                },
            },
        }
    }

    /// A directory is on disk: its node, unless its name belongs to something
    /// else.
    pub open spec fn dir_node(self, dir: TupId, rows: Seq<RowText>, name: Seq<char>) -> (
        SyncState,
        Option<TupId>,
    ) {
        let t = self.world.tables;
        match row_named(rows, name) {
            Some(row) => if row.node_type == NodeType::Dir || row.node_type
                == NodeType::GeneratedDir {
                (self, Some(row.id))
            } else if row.node_type == NodeType::GhostNode {
                (
                    SyncState {
                        world: World {
                            tables: t.set_type(row.id, NodeType::Dir),
                            cache: self.world.cache.set_type(row.id, NodeType::Dir),
                        },
                        ..self
                    },
                    Some(row.id),
                )
            } else {
                (self, None)
            },
            None => match t.new_row(dir, name, NodeType::Dir, -1i64, 0, -1i64, None, None) {
                Err(e) => (SyncState { error: Some(e), ..self }, None),
                Ok(row) => (
                    SyncState {
                        world: World {
                            tables: t.put(row),
                            cache: self.world.cache.add(fresh(row)),
                        },
                        counts: SyncResult {
                            dirs_added: one_more(self.counts.dirs_added),
                            ..self.counts
                        },
                        ..self
                    },
                    Some(row.id),
                ),
            },
        }
    }

    /// The files with rules of a directory are looked at.
    pub open spec fn rules_files(
        self,
        dir: TupId,
        tupfile: Option<(i64, i64)>,
        tupfile_lua: Option<(i64, i64)>,
    ) -> SyncState {
        if tupfile is None && tupfile_lua is None {
            self
        } else {
            let (t, r) = self.world.tables.check_tupfiles(dir, tupfile, tupfile_lua);
            match r {
                Err(e) => SyncState { error: Some(e), ..self.with_tables(t) },
                Ok(true) => self.with_tables(t).to_parse(dir),
                Ok(false) => self.with_tables(t),
            }
        }
    }

    /// What is no longer on disk: its files and directories are modified, and counted.
    pub open spec fn gone(self, rows: Seq<RowText>, entries: Seq<FsNode>) -> SyncState
        decreases rows.len(),
    {
        if rows.len() == 0 {
            self
        } else {
            let before = self.gone(rows.drop_last(), entries);
            let row = rows.last();
            if !is_virtual(row.name) && !is_on_disk(entries, row.name) && (row.node_type
                == NodeType::File || row.node_type == NodeType::Dir) {
                before.with_tables(before.world.tables.flag(row.id, TupFlags::Modify)).deleted()
            } else {
                before
            }
        }
    }

    /// The first entries of a directory on disk. Those that are hidden are passed
    /// over.
    pub open spec fn entries(
        self,
        dir: TupId,
        rows: Seq<RowText>,
        entries: Seq<FsNode>,
        n: nat,
    ) -> SyncState
        decreases entries, n,
    {
        if n == 0 || n > entries.len() {
            self
        } else {
            let before = self.entries(dir, rows, entries, (n - 1) as nat);
            let e = entries[n - 1];
            if before.error is Some || is_hidden(e.name@) {
                before
            } else {
                match e.kind {
                    FsKind::File { mtime, mtime_ns } => before.file(
                        dir,
                        rows,
                        e.name@,
                        mtime,
                        mtime_ns,
                    ),
                    FsKind::Dir { tupfile, tupfile_lua, entries: sub } => {
                        let (s, node) = before.dir_node(dir, rows, e.name@);
                        match node {
                            None => s,
                            Some(id) => {
                                let checked = s.rules_files(id, tupfile, tupfile_lua);
                                if checked.error is Some {
                                    checked
                                } else {
                                    checked.dir(id, sub@)
                                }
                            },
                        }
                    },
                }
            }
        }
    }

    /// A directory on disk, with all that is in it.
    pub open spec fn dir(self, dir: TupId, entries: Seq<FsNode>) -> SyncState
        decreases entries, entries.len() + 1,
    {
        let rows = self.world.tables.rows_in(dir);
        let after = self.entries(dir, rows, entries, entries.len());
        if after.error is Some {
            after
        } else {
            after.gone(rows, entries)
        }
    }
}

/// Whether an entry on disk that is not hidden has a name.
pub open spec fn is_on_disk(entries: Seq<FsNode>, name: Seq<char>) -> bool {
    !is_hidden(name) && exists|i: int|
        0 <= i < entries.len() && (#[trigger] entries[i]).name@ == name
}

/// After an error the entries that follow change nothing.
proof fn lemma_error_ends(
    s: SyncState,
    dir: TupId,
    rows: Seq<RowText>,
    entries: Seq<FsNode>,
    n: nat,
)
    requires
        n <= entries.len(),
        s.entries(dir, rows, entries, n).error is Some,
    ensures
        s.entries(dir, rows, entries, entries.len()) == s.entries(dir, rows, entries, n),
    decreases entries.len() - n,
{
    if n < entries.len() {
        lemma_error_ends(s, dir, rows, entries, n + 1);
    }
}

/// The state of a database, a cache and counts.
pub open spec fn sync_state(db: TupDb, cache: EntryCache, counts: SyncResult) -> SyncState {
    SyncState { world: world(db, cache), counts, error: None }
}

/// Whether what code did is what a state says.
spec fn reached(
    before: DbText,
    db: TupDb,
    cache: EntryCache,
    counts: SyncResult,
    r: Result<(), DbError>,
    s: SyncState,
) -> bool {
    &&& db@ == before.with(s.world.tables)
    &&& cache@ == s.world.cache
    &&& counts == s.counts
    &&& match r {
        Ok(()) => s.error is None,
        Err(e) => s.error == Some(e@),
    }
}

fn sync_file(
    db: &mut TupDb,
    cache: &mut EntryCache,
    dir_id: TupId,
    rows: &Vec<NodeRow>,
    name: &str,
    mtime: i64,
    mtime_ns: i64,
    result: &mut SyncResult,
) -> (r: Result<(), DbError>)
    ensures
        reached(
            old(db)@,
            *final(db),
            *final(cache),
            *final(result),
            r,
            sync_state(*old(db), *old(cache), *old(result)).file(
                dir_id,
                row_texts(rows@),
                name@,
                mtime,
                mtime_ns,
            ),
        ),
{
    match find_row(rows, name) {
        Some(row) => {
            if row.node_type == NodeType::GhostNode {
                db.node_set_type(row.id, NodeType::File);
                db.node_set_mtime(row.id, mtime, mtime_ns);
                db.flag_add(row.id, TupFlags::Modify);
                cache.change_type(row.id, NodeType::File);
                result.files_modified = count_up(result.files_modified);
            } else if row.mtime != mtime || row.mtime_ns != mtime_ns {
                db.node_set_mtime(row.id, mtime, mtime_ns);
                db.flag_add(row.id, TupFlags::Modify);
                result.files_modified = count_up(result.files_modified);
                db.set_dependent_flags(row.id);
                let users = db.get_sticky_outputs(row.id);
                proof {
                    assert(users@.to_set() =~= outs(db@.tables.sticky, row.id));
                }
                let _ = db.flag_add_all(&users, TupFlags::Modify);
                if is_tupfile_name(name) {
                    db.flag_add(dir_id, TupFlags::Create);
                    result.dirs_flagged = count_up(result.dirs_flagged);
                }
            }
        },
        None => {
            match db.node_insert(dir_id, name, NodeType::File, mtime, mtime_ns, -1, None, None) {
                Ok(_) => {},
                Err(e) => {
                    return Err(e);
                },
            }
            result.files_added = count_up(result.files_added);
            if is_tupfile_name(name) {
                db.flag_add(dir_id, TupFlags::Create);
                result.dirs_flagged = count_up(result.dirs_flagged);
            }
            db.flag_add(dir_id, TupFlags::Create);
        },
    }
    Ok(())
}

fn sync_dir_node(
    db: &mut TupDb,
    cache: &mut EntryCache,
    dir_id: TupId,
    rows: &Vec<NodeRow>,
    name: &str,
    result: &mut SyncResult,
) -> (r: Result<Option<TupId>, DbError>)
    ensures
        ({
            let (s, id) = sync_state(*old(db), *old(cache), *old(result)).dir_node(
                dir_id,
                row_texts(rows@),
                name@,
            );
            &&& final(db)@ == old(db)@.with(s.world.tables)
            &&& final(cache)@ == s.world.cache
            &&& *final(result) == s.counts
            &&& match r {
                Ok(node) => s.error is None && node == id,
                Err(e) => s.error == Some(e@) && id is None,
            }
        }),
{
    match find_row(rows, name) {
        Some(row) => {
            if row.node_type == NodeType::Dir || row.node_type == NodeType::GeneratedDir {
                Ok(Some(row.id))
            } else if row.node_type == NodeType::GhostNode {
                db.node_set_type(row.id, NodeType::Dir);
                cache.change_type(row.id, NodeType::Dir);
                Ok(Some(row.id))
            } else {
                Ok(None)
            }
        },
        None => {
            let id = match db.node_insert(dir_id, name, NodeType::Dir, -1, 0, -1, None, None) {
                Ok(id) => id,
                Err(e) => {
                    return Err(e);
                },
            };
            if let Some(row) = db.node_select_by_id(id) {
                let _ = cache.add(TupEntry::from_node_row(&row));
            }
            result.dirs_added = count_up(result.dirs_added);
            Ok(Some(id))
        },
    }
}

fn sync_rules_files(
    db: &mut TupDb,
    cache: &EntryCache,
    dir_id: TupId,
    tupfile: Option<(i64, i64)>,
    tupfile_lua: Option<(i64, i64)>,
    result: &mut SyncResult,
) -> (r: Result<(), DbError>)
    ensures
        reached(
            old(db)@,
            *final(db),
            *cache,
            *final(result),
            r,
            sync_state(*old(db), *cache, *old(result)).rules_files(dir_id, tupfile, tupfile_lua),
        ),
{
    if has_tupfile(tupfile, tupfile_lua) {
        match check_tupfile_changed(db, dir_id, tupfile, tupfile_lua) {
            Ok(changed) => {
                if changed {
                    db.flag_add(dir_id, TupFlags::Create);
                    result.dirs_flagged = count_up(result.dirs_flagged);
                }
            },
            Err(e) => {
                return Err(e);
            },
        }
    }
    Ok(())
}

fn on_disk(entries: &Vec<FsNode>, name: &str) -> (r: bool)
    ensures
        r == is_on_disk(entries@, name@),
{
    if str_first_is(name, '.') {
        return false;
    }
    let mut i: usize = 0;
    while i < entries.len()
        invariant
            i <= entries.len(),
            !is_hidden(name@),
            forall|j: int| 0 <= j < i ==> (#[trigger] entries@[j]).name@ != name@,
        decreases entries.len() - i,
    {
        if same(entries[i].name.as_str(), name) {
            return true;
        }
        i += 1;
    }
    false
}

fn sync_gone(
    db: &mut TupDb,
    cache: &EntryCache,
    rows: &Vec<NodeRow>,
    entries: &Vec<FsNode>,
    result: &mut SyncResult,
)
    ensures
        ({
            let s = sync_state(*old(db), *cache, *old(result)).gone(row_texts(rows@), entries@);
            &&& final(db)@ == old(db)@.with(s.world.tables)
            &&& s.world.cache == cache@
            &&& *final(result) == s.counts
            &&& s.error is None
        }),
{
    let ghost start = sync_state(*db, *cache, *result);
    let ghost all = row_texts(rows@);
    let mut i: usize = 0;
    assert(all.take(0) =~= Seq::empty());
    while i < rows.len()
        invariant
            i <= rows.len(),
            all == row_texts(rows@),
            start == sync_state(*old(db), *cache, *old(result)),
            db@ == old(db)@.with(start.gone(all.take(i as int), entries@).world.tables),
            start.gone(all.take(i as int), entries@).world.cache == cache@,
            *result == start.gone(all.take(i as int), entries@).counts,
            start.gone(all.take(i as int), entries@).error is None,
        decreases rows.len() - i,
    {
        proof {
            assert(all.take(i + 1).drop_last() =~= all.take(i as int));
            assert(all.take(i + 1).last() == rows@[i as int]@);
        }
        let row = &rows[i];
        if !is_virtual_name(row.name.as_str()) && !on_disk(entries, row.name.as_str()) && (
        row.node_type == NodeType::File || row.node_type == NodeType::Dir) {
            db.flag_add(row.id, TupFlags::Modify);
            result.files_deleted = count_up(result.files_deleted);
        }
        i += 1;
    }
    assert(all.take(all.len() as int) =~= all);
}

/// Brings a directory on disk and all that is in it into the database.
pub fn sync_dir(
    db: &mut TupDb,
    cache: &mut EntryCache,
    dir_id: TupId,
    entries: &Vec<FsNode>,
    result: &mut SyncResult,
) -> (r: Result<(), DbError>)
    ensures
        ({
            let s = sync_state(*old(db), *old(cache), *old(result)).dir(dir_id, entries@);
            &&& final(db)@ == old(db)@.with(s.world.tables)
            &&& final(cache)@ == s.world.cache
            &&& *final(result) == s.counts
            &&& match r {
                Ok(()) => s.error is None,
                Err(e) => s.error == Some(e@),
            }
        }),
    decreases entries@,
{
    let ghost start = sync_state(*db, *cache, *result);
    let rows = db.node_select_dir(dir_id);
    let ghost all = row_texts(rows@);
    let mut i: usize = 0;
    while i < entries.len()
        invariant
            i <= entries.len(),
            all == row_texts(rows@),
            start == sync_state(*old(db), *old(cache), *old(result)),
            all == start.world.tables.rows_in(dir_id),
            start.entries(dir_id, all, entries@, i as nat).error is None,
            db@ == old(db)@.with(start.entries(dir_id, all, entries@, i as nat).world.tables),
            cache@ == start.entries(dir_id, all, entries@, i as nat).world.cache,
            *result == start.entries(dir_id, all, entries@, i as nat).counts,
        decreases entries.len() - i,
    {
        let ghost here = start.entries(dir_id, all, entries@, i as nat);
        let ghost next = start.entries(dir_id, all, entries@, (i + 1) as nat);
        assert(sync_state(*db, *cache, *result) == here);
        let entry = &entries[i];
        let name = entry.name.as_str();
        let r = if str_first_is(name, '.') {
            Ok(())
        } else {
            match &entry.kind {
                FsKind::File { mtime, mtime_ns } => sync_file(
                    db,
                    cache,
                    dir_id,
                    &rows,
                    name,
                    *mtime,
                    *mtime_ns,
                    result,
                ),
                FsKind::Dir { tupfile, tupfile_lua, entries: sub } => {
                    match sync_dir_node(db, cache, dir_id, &rows, name, result) {
                        Err(e) => Err(e),
                        Ok(None) => Ok(()),
                        Ok(Some(sub_id)) => {
                            match sync_rules_files(db, cache, sub_id, *tupfile, *tupfile_lua, result) {
                                Err(e) => Err(e),
                                Ok(()) => {
                                    assert(decreases_to!(entries@ => entries@[i as int]));
                                    sync_dir(db, cache, sub_id, sub, result)
                                },
                            }
                        },
                    }
                },
            }
        };
        match r {
            Ok(()) => {},
            Err(e) => {
                proof {
                    lemma_error_ends(start, dir_id, all, entries@, (i + 1) as nat);
                }
                return Err(e);
            },
        }
        i += 1;
    }
    sync_gone(db, cache, &rows, entries, result);
    Ok(())
}

// ------------------------------------------------ what is no longer on disk

/// Whether a file with rules was found, though it may not be in a list.
pub open spec fn is_rules_file(name: Seq<char>, tupfile: bool, tupfile_lua: bool) -> bool {
    (tupfile && name == "Tupfile"@) || (tupfile_lua && name == "Tupfile.lua"@)
}

/// Whether a node of a directory is a file or a directory that is not on disk.
pub open spec fn is_missing(
    row: RowText,
    entries: Seq<FsNode>,
    tupfile: bool,
    tupfile_lua: bool,
) -> bool {
    &&& row.node_type == NodeType::File || row.node_type == NodeType::Dir || row.node_type
        == NodeType::GeneratedDir
    &&& !is_virtual(row.name)
    &&& !is_on_disk(entries, row.name)
    &&& !is_rules_file(row.name, tupfile, tupfile_lua)
}

/// The files and directories among some nodes that are not on disk.
pub open spec fn missing_rows(
    rows: Seq<RowText>,
    entries: Seq<FsNode>,
    tupfile: bool,
    tupfile_lua: bool,
) -> Seq<TupId>
    decreases rows.len(),
{
    if rows.len() == 0 {
        Seq::empty()
    } else {
        let before = missing_rows(rows.drop_last(), entries, tupfile, tupfile_lua);
        if is_missing(rows.last(), entries, tupfile, tupfile_lua) {
            before.push(rows.last().id)
        } else {
            before
        }
    }
}

/// The nodes below the first entries of a directory that are not on disk.
pub open spec fn missing_below(
    t: TablesText,
    dir: TupId,
    entries: Seq<FsNode>,
    n: nat,
) -> Seq<TupId>
    decreases entries, n,
{
    if n == 0 || n > entries.len() {
        Seq::empty()
    } else {
        let before = missing_below(t, dir, entries, (n - 1) as nat);
        let e = entries[n - 1];
        match e.kind {
            FsKind::File { .. } => before,
            FsKind::Dir { tupfile, tupfile_lua, entries: sub } => match t.select(dir, e.name@) {
                Some(id) => if !is_hidden(e.name@) && (t.nodes[id].node_type == NodeType::Dir
                    || t.nodes[id].node_type == NodeType::GeneratedDir) {
                    before + missing(t, id, sub@, tupfile is Some, tupfile_lua is Some)
                } else {
                    before
                },
                None => before,
            },
        }
    }
}

/// The nodes of a directory, and of the directories in it, that are not on disk.
pub open spec fn missing(
    t: TablesText,
    dir: TupId,
    entries: Seq<FsNode>,
    tupfile: bool,
    tupfile_lua: bool,
) -> Seq<TupId>
    decreases entries, entries.len() + 1,
{
    missing_below(t, dir, entries, entries.len()) + missing_rows(
        t.rows_in(dir),
        entries,
        tupfile,
        tupfile_lua,
    )
}

fn add_missing_rows(
    rows: &Vec<NodeRow>,
    entries: &Vec<FsNode>,
    tupfile: bool,
    tupfile_lua: bool,
    out: &mut Vec<TupId>,
)
    ensures
        final(out)@ == old(out)@ + missing_rows(
            row_texts(rows@),
            entries@,
            tupfile,
            tupfile_lua,
        ),
{
    let ghost all = row_texts(rows@);
    let mut i: usize = 0;
    proof {
        assert(all.take(0) =~= Seq::empty());
        assert(out@ + missing_rows(all.take(0), entries@, tupfile, tupfile_lua) =~= out@);
    }
    while i < rows.len()
        invariant
            i <= rows.len(),
            all == row_texts(rows@),
            out@ == old(out)@ + missing_rows(all.take(i as int), entries@, tupfile, tupfile_lua),
        decreases rows.len() - i,
    {
        proof {
            assert(all.take(i + 1).drop_last() =~= all.take(i as int));
            assert(all.take(i + 1).last() == rows@[i as int]@);
        }
        let row = &rows[i];
        let kind = row.node_type == NodeType::File || row.node_type == NodeType::Dir
            || row.node_type == NodeType::GeneratedDir;
        let name = row.name.as_str();
        let found = (tupfile && same(name, "Tupfile")) || (tupfile_lua && same(
            name,
            "Tupfile.lua",
        ));
        if kind && !found && !is_virtual_name(row.name.as_str()) && !on_disk(entries, row.name.as_str()) {
            out.push(row.id);
        }
        proof {
            assert(out@ =~= old(out)@ + missing_rows(all.take(i + 1), entries@, tupfile, tupfile_lua));
        }
        i += 1;
    }
    assert(all.take(all.len() as int) =~= all);
}

fn add_missing(
    db: &TupDb,
    dir_id: TupId,
    entries: &Vec<FsNode>,
    tupfile: bool,
    tupfile_lua: bool,
    out: &mut Vec<TupId>,
)
    ensures
        final(out)@ == old(out)@ + missing(
            db@.tables,
            dir_id,
            entries@,
            tupfile,
            tupfile_lua,
        ),
    decreases entries@,
{
    let ghost t = db@.tables;
    let mut i: usize = 0;
    assert(out@ + missing_below(t, dir_id, entries@, 0) =~= out@);
    while i < entries.len()
        invariant
            i <= entries.len(),
            t == db@.tables,
            out@ == old(out)@ + missing_below(t, dir_id, entries@, i as nat),
        decreases entries.len() - i,
    {
        let ghost before = out@;
        let entry = &entries[i];
        if let FsKind::Dir { tupfile: own, tupfile_lua: own_lua, entries: sub } = &entry.kind {
            if let Some(row) = db.node_select(dir_id, entry.name.as_str()) {
                if !str_first_is(entry.name.as_str(), '.') && (row.node_type == NodeType::Dir
                    || row.node_type == NodeType::GeneratedDir) {
                    assert(decreases_to!(entries@ => entries@[i as int]));
                    add_missing(db, row.id, sub, own.is_some(), own_lua.is_some(), out);
                }
            }
        }
        proof {
            assert(out@ =~= old(out)@ + missing_below(t, dir_id, entries@, (i + 1) as nat));
        }
        i += 1;
    }
    let rows = db.node_select_dir(dir_id);
    add_missing_rows(&rows, entries, tupfile, tupfile_lua, out);
    assert(out@ =~= old(out)@ + missing(t, dir_id, entries@, tupfile, tupfile_lua));
}

/// What a synchronization of the whole project comes to: the database, the
/// cache, and the counts or an error. After an error its transaction is still
/// open.
pub open spec fn synced(db: DbText, cache: CacheText, entries: Seq<FsNode>) -> (
    DbText,
    CacheText,
    Result<SyncResult, DbErrorText>,
) {
    if db.saved is Some {
        (
            db,
            cache,
            Err(DbErrorText::Sqlite("cannot start a transaction within a transaction"@)),
        )
    } else {
        let begun = db.begun();
        let (c, r) = cache.load(db.tables.nodes, dot());
        match r {
            Err(e) => (begun, c, Err(e)),
            Ok(()) => {
                let s = SyncState {
                    world: World { tables: db.tables, cache: c },
                    counts: no_counts(),
                    error: None,
                }.dir(dot(), entries);
                match s.error {
                    Some(e) => (begun.with(s.world.tables), s.world.cache, Err(e)),
                    None => {
                        let w = s.world.sweep(missing(s.world.tables, dot(), entries, false, false));
                        (begun.with(w.tables).committed(), w.cache, Ok(s.counts))
                    },
                }
            },
        }
    }
}

/// Brings what is on disk into the database: new files get nodes, changed files
/// are modified, deleted files are removed or become ghosts, and directories whose
/// rules changed are to be parsed.
pub fn sync_filesystem(
    db: &mut TupDb,
    cache: &mut EntryCache,
    entries: &Vec<FsNode>,
) -> (r: Result<SyncResult, DbError>)
    ensures
        ({
            let (d, c, s) = synced(old(db)@, old(cache)@, entries@);
            &&& final(db)@ == d
            &&& final(cache)@ == c
            &&& match (r, s) {
                (Ok(a), Ok(b)) => a == b,
                (Err(e), Err(f)) => e@ == f,
                _ => false,
            }
        }),
{
    match db.begin() {
        Ok(()) => {},
        Err(e) => {
            return Err(e);
        },
    }
    match cache.load(db, dot_dt()) {
        Ok(_) => {},
        Err(e) => {
            return Err(e);
        },
    }
    let mut result = SyncResult::default();
    match sync_dir(db, cache, dot_dt(), entries, &mut result) {
        Ok(()) => {},
        Err(e) => {
            return Err(e);
        },
    }
    let mut gone: Vec<TupId> = Vec::new();
    add_missing(db, dot_dt(), entries, false, false, &mut gone);
    assert(gone@ =~= missing(db@.tables, dot(), entries@, false, false));
    sweep(db, cache, &gone);
    match db.commit() {
        Ok(()) => Ok(result),
        Err(e) => Err(e),
    }
}

} // verus!
