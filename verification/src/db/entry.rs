//! Nodes that are held in memory.
use vstd::prelude::*;

use crate::db::errors::{DbError, DbErrorText};
use crate::db::links::nodes_in;
use crate::db::rows::{row_texts, rows_at, NodeRow, RowText};
use crate::db::tables::TupDb;
use crate::ids::{ascending, lists};
use crate::ordmap::{
    deep, lemma_deep_insert, lemma_deep_remove, lemma_text_lt_irreflexive, lemma_text_lt_total,
    lemma_text_lt_transitive, text_lt, text_order, Key, OrdMap, Order,
};
use crate::parser::reader::opt_str;
use crate::parser::rule::{copy_opt, opt_text};
use crate::text::{concat2, concat3, copy_str, join, join_strings, same, str_find_char, texts};
use crate::types::{i64_to_string, ids_are_finite, int_text, NodeType, TupId};

verus! {

/// A node that is held in memory.
#[derive(Debug)]
pub struct TupEntry {
    pub id: TupId,
    /// The directory that the node is in.
    pub dt: TupId,
    pub node_type: NodeType,
    /// Time of the last change in seconds, -1 where it is unknown.
    pub mtime: i64,
    /// The part of a second of that time, in nanoseconds.
    pub mtime_ns: i64,
    /// The node that this one comes from, -1 for none.
    pub srcid: i64,
    pub name: String,
    /// What is shown in place of a command.
    pub display: Option<String>,
    /// `t` marks a transient node, `j` one for the compilation database.
    pub flags: Option<String>,
    /// The number of users.
    pub refcount: i32,
}

/// A node that is held in memory, as its row and the number of its users.
#[verifier::ext_equal]
pub struct EntryText {
    pub row: RowText,
    pub refs: i32,
}

impl View for TupEntry {
    type V = EntryText;

    open spec fn view(&self) -> EntryText {
        EntryText {
            row: RowText {
                id: self.id,
                dir: self.dt,
                node_type: self.node_type,
                mtime: self.mtime,
                mtime_ns: self.mtime_ns,
                srcid: self.srcid,
                name: self.name@,
                display: opt_text(self.display),
                flags: opt_text(self.flags),
            },
            refs: self.refcount,
        }
    }
}

/// Whether a node's flags hold a letter.
pub open spec fn has_letter(flags: Option<Seq<char>>, c: char) -> bool {
    flags is Some && flags->0.contains(c)
}

fn flags_have(flags: &Option<String>, c: char) -> (r: bool)
    ensures
        r == has_letter(opt_text(*flags), c),
{
    match flags {
        Some(f) => {
            let found = str_find_char(f.as_str(), c);
            proof {
                if found is Some {
                    assert(f@[found->0 as int] == c);
                }
            }
            found.is_some()
        },
        None => false,
    }
}

impl TupEntry {
    /// A row of the database as an entry without users.
    pub fn from_node_row(row: &NodeRow) -> (r: Self)
        ensures
            r@ == (EntryText { row: row@, refs: 0 }),
            r.id == row.id,
    {
        TupEntry {
            id: row.id,
            dt: row.dir,
            node_type: row.node_type,
            mtime: row.mtime,
            mtime_ns: row.mtime_ns,
            srcid: row.srcid,
            name: row.name.clone(),
            display: copy_opt(&row.display),
            flags: copy_opt(&row.flags),
            refcount: 0,
        }
    }

    /// Adds a user. The count wraps around at its limit.
    pub fn add_ref(&mut self)
        ensures
            final(self)@ == (EntryText { refs: wrapped(old(self)@.refs + 1), ..old(self)@ }),
    {
        if self.refcount == i32::MAX {
            self.refcount = i32::MIN;
        } else {
            self.refcount = self.refcount + 1;
        }
    }

    /// Takes a user away. The count wraps around at its limit.
    pub fn del_ref(&mut self)
        ensures
            final(self)@ == (EntryText { refs: wrapped(old(self)@.refs - 1), ..old(self)@ }),
    {
        if self.refcount == i32::MIN {
            self.refcount = i32::MAX;
        } else {
            self.refcount = self.refcount - 1;
        }
    }

    /// The number of users.
    pub fn ref_count(&self) -> (r: i32)
        ensures
            r == self@.refs,
    {
        self.refcount
    }

    /// Whether the node is transient.
    pub fn is_transient(&self) -> (r: bool)
        ensures
            r == has_letter(self@.row.flags, 't'),
    {
        flags_have(&self.flags, 't')
    }

    /// Whether the node is part of the compilation database.
    pub fn is_compiledb(&self) -> (r: bool)
        ensures
            r == has_letter(self@.row.flags, 'j'),
    {
        flags_have(&self.flags, 'j')
    }

    /// The path of the node: the names of the directories above it, from the
    /// outermost, and its own.
    pub fn full_path(&self, cache: &EntryCache) -> (r: String)
        requires
            exists|n: nat| #[trigger] up_ends(cache@.entries, self@.row.dir, n),
        ensures
            forall|n: nat| #[trigger]
                up_ends(cache@.entries, self@.row.dir, n) ==> r@ == path_of(
                    cache@.entries,
                    self@.row,
                    n,
                ),
    {
        let ghost entries = cache@.entries;
        let ghost top = choose|n: nat| #[trigger] up_ends(entries, self.dt, n);
        let ghost mut left = top;
        let mut parts: Vec<String> = Vec::new();
        parts.push(self.name.clone());
        let mut current = self.dt;
        let ghost all = seq![self.name@] + ups(entries, self.dt, top);
        assert(texts(parts@) =~= seq![self.name@]);
        assert(texts(parts@) + ups(entries, current, left) =~= all);
        let mut going = true;
        while going && current.raw() > 0
            invariant
                entries == cache@.entries,
                going ==> up_ends(entries, current, left) && all == texts(parts@) + ups(
                    entries,
                    current,
                    left,
                ),
                !going ==> all == texts(parts@),
            decreases left, (if going { 1int } else { 0int }),
        {
            match cache.find(current) {
                Some(parent) => {
                    if same(parent.name.as_str(), ".") {
                        going = false;
                        assert(texts(parts@) + Seq::<Seq<char>>::empty() =~= texts(parts@));
                    } else {
                        let ghost before = parts@;
                        let ghost n = left;
                        parts.push(parent.name.clone());
                        proof {
                            let rest = ups(entries, parent.dt, (n - 1) as nat);
                            assert(texts(parts@) =~= texts(before).push(parent.name@));
                            assert(texts(before) + (seq![parent.name@] + rest) =~= texts(parts@)
                                + rest);
                            left = (n - 1) as nat;
                        }
                        current = parent.dt;
                    }
                },
                None => {
                    going = false;
                    assert(texts(parts@) + Seq::<Seq<char>>::empty() =~= texts(parts@));
                },
            }
        }
        proof {
            if going {
                assert(texts(parts@) + Seq::<Seq<char>>::empty() =~= texts(parts@));
            }
            assert forall|n: nat| #[trigger] up_ends(entries, self.dt, n) implies ups(
                entries,
                self.dt,
                n,
            ) == ups(entries, self.dt, top) by {
                lemma_ups_agree(entries, self.dt, n, top);
            }
        }
        let path = reversed(&parts);
        join_strings(path.as_slice(), "/")
    }
}

/// A number that left the range of `i32` by one, brought back into it.
pub open spec fn wrapped(n: int) -> i32 {
    if n > i32::MAX {
        i32::MIN
    } else if n < i32::MIN {
        i32::MAX
    } else {
        n as i32
    }
}

/// The strings of a list in reversed order.
fn reversed(v: &Vec<String>) -> (r: Vec<String>)
    ensures
        texts(r@) == texts(v@).reverse(),
{
    let mut out: Vec<String> = Vec::new();
    let mut i: usize = v.len();
    while i > 0
        invariant
            i <= v.len(),
            out@.len() == v@.len() - i,
            forall|j: int| 0 <= j < out@.len() ==> (#[trigger] out@[j])@ == v@[v@.len() - 1 - j]@,
        decreases i,
    {
        i -= 1;
        out.push(v[i].clone());
    }
    assert(texts(out@) =~= texts(v@).reverse());
    out
}

// ------------------------------------------------ the directories above a node

/// Whether a walk from a directory up to the top ends within a number of steps.
pub open spec fn up_ends(entries: Map<TupId, EntryText>, dt: TupId, n: nat) -> bool
    decreases n,
{
    ||| dt.0 <= 0
    ||| !entries.dom().contains(dt)
    ||| entries[dt].row.name == "."@
    ||| (n > 0 && up_ends(entries, entries[dt].row.dir, (n - 1) as nat))
}

/// The names on the way from a directory up to the top, the directory's own
/// first. The top directory has no part in it.
pub open spec fn ups(entries: Map<TupId, EntryText>, dt: TupId, n: nat) -> Seq<Seq<char>>
    decreases n,
{
    if dt.0 <= 0 || !entries.dom().contains(dt) || entries[dt].row.name == "."@ || n == 0 {
        Seq::empty()
    } else {
        seq![entries[dt].row.name] + ups(entries, entries[dt].row.dir, (n - 1) as nat)
    }
}

/// The path of a node.
pub open spec fn path_of(entries: Map<TupId, EntryText>, row: RowText, n: nat) -> Seq<char> {
    join((seq![row.name] + ups(entries, row.dir, n)).reverse(), "/"@)
}

proof fn lemma_ups_agree(entries: Map<TupId, EntryText>, dt: TupId, n: nat, m: nat)
    requires
        up_ends(entries, dt, n),
        up_ends(entries, dt, m),
    ensures
        ups(entries, dt, n) == ups(entries, dt, m),
    decreases n,
{
    if dt.0 <= 0 || !entries.dom().contains(dt) || entries[dt].row.name == "."@ {
    } else {
        lemma_ups_agree(entries, entries[dt].row.dir, (n - 1) as nat, (m - 1) as nat);
    }
}

/// Whether a node has no directory above it that could be looked up.
pub open spec fn is_top(entries: Map<TupId, EntryText>, id: TupId) -> bool {
    entries[id].row.dir.0 <= 0 || entries[id].row.dir == id
}

/// Whether the walk from a node through the directories above it ends within a
/// number of steps, at the top or at a node that is not in memory.
pub open spec fn line_ends(entries: Map<TupId, EntryText>, id: TupId, n: nat) -> bool
    decreases n,
{
    ||| !entries.dom().contains(id)
    ||| is_top(entries, id)
    ||| (n > 0 && line_ends(entries, entries[id].row.dir, (n - 1) as nat))
}

/// Whether that walk ends at the top.
pub open spec fn line_whole(entries: Map<TupId, EntryText>, id: TupId, n: nat) -> bool
    decreases n,
{
    &&& entries.dom().contains(id)
    &&& (is_top(entries, id) || (n > 0 && line_whole(
        entries,
        entries[id].row.dir,
        (n - 1) as nat,
    )))
}

/// The nodes on that walk, the node itself first.
pub open spec fn line(entries: Map<TupId, EntryText>, id: TupId, n: nat) -> Seq<TupId>
    decreases n,
{
    if !entries.dom().contains(id) {
        Seq::empty()
    } else if is_top(entries, id) || n == 0 {
        seq![id]
    } else {
        seq![id] + line(entries, entries[id].row.dir, (n - 1) as nat)
    }
}

proof fn lemma_lines_agree(entries: Map<TupId, EntryText>, id: TupId, n: nat, m: nat)
    requires
        line_ends(entries, id, n),
        line_ends(entries, id, m),
    ensures
        line(entries, id, n) == line(entries, id, m),
        line_whole(entries, id, n) == line_whole(entries, id, m),
    decreases n,
{
    if !entries.dom().contains(id) || is_top(entries, id) {
    } else {
        lemma_lines_agree(entries, entries[id].row.dir, (n - 1) as nat, (m - 1) as nat);
    }
}

proof fn lemma_line_known(entries: Map<TupId, EntryText>, id: TupId, n: nat)
    ensures
        forall|i: int|
            0 <= i < line(entries, id, n).len() ==> entries.dom().contains(
                #[trigger] line(entries, id, n)[i],
            ),
    decreases n,
{
    if !entries.dom().contains(id) {
    } else if is_top(entries, id) || n == 0 {
    } else {
        let rest = line(entries, entries[id].row.dir, (n - 1) as nat);
        lemma_line_known(entries, entries[id].row.dir, (n - 1) as nat);
        assert forall|i: int| 0 <= i < line(entries, id, n).len() implies entries.dom().contains(
            #[trigger] line(entries, id, n)[i],
        ) by {
            if i > 0 {
                assert(line(entries, id, n)[i] == rest[i - 1]);
            }
        }
    }
}

/// The number of nodes with which two lists begin alike.
pub open spec fn common_len(a: Seq<TupId>, b: Seq<TupId>) -> nat
    decreases a.len(),
{
    if a.len() == 0 || b.len() == 0 || a[0] != b[0] {
        0
    } else {
        1 + common_len(a.drop_first(), b.drop_first())
    }
}

/// The names of nodes.
pub open spec fn names_of(entries: Map<TupId, EntryText>, ids: Seq<TupId>) -> Seq<Seq<char>> {
    Seq::new(ids.len(), |i: int| entries[ids[i]].row.name)
}

/// The way from one node to another: up to the last directory that both are
/// below, and down from there.
pub open spec fn way(
    entries: Map<TupId, EntryText>,
    from: Seq<TupId>,
    to: Seq<TupId>,
) -> Seq<char> {
    let common = common_len(from, to);
    let parts = Seq::new((from.len() - common) as nat, |i: int| ".."@) + names_of(
        entries,
        to.skip(common as int),
    );
    if parts.len() == 0 {
        "."@
    } else {
        join(parts, "/"@)
    }
}

// ------------------------------------------------ the cache

/// The key of a name in a directory.
#[derive(Debug)]
pub struct NameKey(pub TupId, pub String);

impl View for NameKey {
    type V = (TupId, Seq<char>);

    open spec fn view(&self) -> (TupId, Seq<char>) {
        (self.0, self.1@)
    }
}

impl Key for NameKey {
    open spec fn lt(a: (TupId, Seq<char>), b: (TupId, Seq<char>)) -> bool {
        a.0.0 < b.0.0 || (a.0 == b.0 && text_lt(a.1, b.1))
    }

    proof fn lt_irreflexive(a: (TupId, Seq<char>)) {
        lemma_text_lt_irreflexive(a.1);
    }

    proof fn lt_transitive(
        a: (TupId, Seq<char>),
        b: (TupId, Seq<char>),
        c: (TupId, Seq<char>),
    ) {
        if a.0 == b.0 && b.0 == c.0 {
            lemma_text_lt_transitive(a.1, b.1, c.1);
        }
    }

    proof fn lt_total(a: (TupId, Seq<char>), b: (TupId, Seq<char>)) {
        lemma_text_lt_total(a.1, b.1);
        if a.0.0 == b.0.0 {
            assert(a.0 == b.0);
        }
    }

    fn order(&self, other: &Self) -> (r: Order) {
        if self.0.raw() < other.0.raw() {
            Order::Less
        } else if self.0.raw() > other.0.raw() {
            Order::Greater
        } else {
            text_order(self.1.as_str(), other.1.as_str())
        }
    }

    fn copy_key(&self) -> (r: Self) {
        NameKey(self.0, self.1.clone())
    }
}

/// The nodes that are held in memory, by identifier and by name.
#[derive(Debug)]
pub struct EntryCache {
    entries: OrdMap<TupId, TupEntry>,
    name_index: OrdMap<NameKey, TupId>,
}

/// The cache as two maps.
#[verifier::ext_equal]
pub struct CacheText {
    pub entries: Map<TupId, EntryText>,
    pub names: Map<(TupId, Seq<char>), TupId>,
}

impl View for EntryCache {
    type V = CacheText;

    closed spec fn view(&self) -> CacheText {
        CacheText { entries: deep(self.entries@), names: self.name_index@ }
    }
}

/// A node without users.
pub open spec fn fresh(row: RowText) -> EntryText {
    EntryText { row, refs: 0 }
}

impl CacheText {
    /// Adds an entry where its identifier is not there, and lets its name stand
    /// for the identifier in any case.
    pub open spec fn add(self, e: EntryText) -> CacheText {
        CacheText {
            entries: if self.entries.dom().contains(e.row.id) {
                self.entries
            } else {
                self.entries.insert(e.row.id, e)
            },
            names: self.names.insert((e.row.dir, e.row.name), e.row.id),
        }
    }

    /// Adds the rows of a list, one after the other.
    pub open spec fn add_rows(self, rows: Seq<RowText>) -> CacheText
        decreases rows.len(),
    {
        if rows.len() == 0 {
            self
        } else {
            self.add_rows(rows.drop_last()).add(fresh(rows.last()))
        }
    }

    /// The entry with a name in a directory.
    pub open spec fn named(self, dir: TupId, name: Seq<char>) -> Option<EntryText> {
        if self.names.dom().contains((dir, name)) && self.entries.dom().contains(
            self.names[(dir, name)],
        ) {
            Some(self.entries[self.names[(dir, name)]])
        } else {
            None
        }
    }

    /// The cache with a node of the database and the directories above it, as
    /// far as they were not in it. The walk stops with an error at a node that
    /// the database does not have.
    pub open spec fn load(
        self,
        nodes: Map<TupId, RowText>,
        id: TupId,
    ) -> (CacheText, Result<(), DbErrorText>)
        decreases 0x1_0000_0000_0000_0000 - self.entries.dom().len(),
    {
        if self.entries.dom().contains(id) {
            (self, Ok(()))
        } else if !nodes.dom().contains(id) {
            (self, Err(DbErrorText::NodeNotFound(id)))
        } else {
            let with = self.add(fresh(RowText { id, ..nodes[id] }));
            let parent = nodes[id].dir;
            proof {
                ids_are_finite(self.entries.dom());
                ids_are_finite(with.entries.dom());
                assert(with.entries.dom() =~= self.entries.dom().insert(id));
            }
            if parent.0 > 0 && !with.entries.dom().contains(parent) {
                with.load(nodes, parent)
            } else {
                (with, Ok(()))
            }
        }
    }

    /// Whether an entry is in the directory of a node.
    pub open spec fn has_children(self, id: TupId) -> bool {
        exists|x: TupId| #[trigger]
            self.entries.dom().contains(x) && self.entries[x].row.dir == id
                && self.entries[x].row.id != id
    }

    /// The error where an entry cannot be removed.
    pub open spec fn remove_error(self, id: TupId) -> Option<DbErrorText> {
        if !self.entries.dom().contains(id) {
            None
        } else if self.entries[id].refs != 0 {
            Some(
                DbErrorText::Other(
                    "cannot remove entry "@ + int_text(id.0 as int) + ": refcount is "@ + int_text(
                        self.entries[id].refs as int,
                    ),
                ),
            )
        } else if self.has_children(id) {
            Some(
                DbErrorText::Other(
                    "cannot remove entry "@ + int_text(id.0 as int) + ": still has children"@,
                ),
            )
        } else {
            None
        }
    }

    /// The cache without an entry, where it can be removed.
    pub open spec fn remove(self, id: TupId) -> CacheText {
        if !self.entries.dom().contains(id) || self.remove_error(id) is Some {
            self
        } else {
            CacheText {
                entries: self.entries.remove(id),
                names: self.names.remove(
                    (self.entries[id].row.dir, self.entries[id].row.name),
                ),
            }
        }
    }

    /// The cache with another row in an entry.
    pub open spec fn with_row(self, id: TupId, row: RowText) -> CacheText {
        if self.entries.dom().contains(id) {
            CacheText {
                entries: self.entries.insert(id, EntryText { row, ..self.entries[id] }),
                ..self
            }
        } else {
            self
        }
    }

    pub open spec fn set_type(self, id: TupId, node_type: NodeType) -> CacheText {
        self.with_row(id, RowText { node_type, ..self.entries[id].row })
    }

    pub open spec fn rename(self, id: TupId, name: Seq<char>, dir: TupId) -> CacheText {
        let names = if self.entries.dom().contains(id) {
            self.names.remove((self.entries[id].row.dir, self.entries[id].row.name))
        } else {
            self.names
        };
        CacheText {
            names: names.insert((dir, name), id),
            ..self.with_row(id, RowText { name, dir, ..self.entries[id].row })
        }
    }
}

impl EntryCache {
    /// A cache without entries.
    pub fn new() -> (r: Self)
        ensures
            r@ == (CacheText { entries: Map::empty(), names: Map::empty() }),
    {
        let r = EntryCache { entries: OrdMap::new(), name_index: OrdMap::new() };
        assert(r@.entries =~= Map::<TupId, EntryText>::empty());
        r
    }

    /// The entry with an identifier.
    pub fn find(&self, id: TupId) -> (r: Option<&TupEntry>)
        ensures
            match r {
                Some(e) => {
                    &&& self@.entries.dom().contains(id)
                    &&& self@.entries[id] == e@
                },
                None => !self@.entries.dom().contains(id),
            },
    {
        match self.entries.get(&id) {
            Some(e) => {
                assert(self@.entries.dom().contains(id));
                Some(e)
            },
            None => None,
        }
    }

    /// The entry with an identifier, which must be there.
    pub fn get(&self, id: TupId) -> (r: &TupEntry)
        requires
            self@.entries.dom().contains(id),
        ensures
            r@ == self@.entries[id],
    {
        match self.entries.get(&id) {
            Some(e) => e,
            None => {
                assert(false);
                vstd::pervasive::unreached()
            },
        }
    }

    /// The entry with a name in a directory.
    pub fn find_name_in_dir(&self, parent_id: TupId, name: &str) -> (r: Option<&TupEntry>)
        ensures
            match r {
                Some(e) => self@.named(parent_id, name@) == Some(e@),
                None => self@.named(parent_id, name@) is None,
            },
    {
        match self.name_index.get(&NameKey(parent_id, copy_str(name))) {
            Some(id) => self.find(*id),
            None => None,
        }
    }

    /// Adds an entry. One with the same identifier that is there already stays,
    /// but the name of the new one stands for it.
    pub fn add(&mut self, entry: TupEntry) -> (r: &TupEntry)
        ensures
            final(self)@ == old(self)@.add(entry@),
            r@ == old(self)@.add(entry@).entries[entry@.row.id],
    {
        let id = entry.id;
        let key = NameKey(entry.dt, entry.name.clone());
        let ghost text = entry@;
        if !self.entries.contains(&id) {
            proof {
                lemma_deep_insert(self.entries@, id, entry);
            }
            self.entries.insert(id, entry);
        } else {
            assert(self@.entries.dom().contains(id));
        }
        self.name_index.insert(key, id);
        assert(self@.entries.dom().contains(id));
        self.get(id)
    }

    /// Loads a node and the directories above it from the database.
    pub fn load(&mut self, db: &TupDb, id: TupId) -> (r: Result<&TupEntry, DbError>)
        ensures
            final(self)@ == old(self)@.load(db@.tables.nodes, id).0,
            match (r, old(self)@.load(db@.tables.nodes, id).1) {
                (Ok(e), Ok(())) => {
                    let after = old(self)@.load(db@.tables.nodes, id).0;
                    after.entries.dom().contains(id) && e@ == after.entries[id]
                },
                (Err(e), Err(t)) => e@ == t,
                _ => false,
            },
    {
        match self.load_up(db, id) {
            Ok(()) => Ok(self.get(id)),
            Err(e) => Err(e),
        }
    }

    fn load_up(&mut self, db: &TupDb, id: TupId) -> (r: Result<(), DbError>)
        ensures
            final(self)@ == old(self)@.load(db@.tables.nodes, id).0,
            match (r, old(self)@.load(db@.tables.nodes, id).1) {
                (Ok(()), Ok(())) => final(self)@.entries.dom().contains(id),
                (Err(e), Err(t)) => e@ == t,
                _ => false,
            },
            forall|x: TupId|
                #[trigger] old(self)@.entries.dom().contains(x)
                    ==> final(self)@.entries.dom().contains(x),
        decreases 0x1_0000_0000_0000_0000 - old(self)@.entries.dom().len(),
    {
        if self.entries.contains(&id) {
            assert(self@.entries.dom().contains(id));
            return Ok(());
        }
        let row = match db.node_select_by_id(id) {
            Some(row) => row,
            None => {
                return Err(DbError::NodeNotFound(id));
            },
        };
        let entry = TupEntry::from_node_row(&row);
        let parent_dt = entry.dt;
        let ghost before = self@;
        proof {
            assert(RowText { id, ..db@.tables.nodes[id] } == row@);
        }
        let _ = self.add(entry);
        proof {
            ids_are_finite(before.entries.dom());
            ids_are_finite(self@.entries.dom());
            assert(self@.entries.dom() =~= before.entries.dom().insert(id));
        }
        if parent_dt.raw() > 0 && self.find(parent_dt).is_none() {
            let ghost mid = self@;
            let r = self.load_up(db, parent_dt);
            proof {
                assert(mid.entries.dom().contains(id));
                assert forall|x: TupId| #[trigger]
                    before.entries.dom().contains(x) implies self@.entries.dom().contains(x) by {
                    assert(mid.entries.dom().contains(x));
                }
            }
            return r;
        }
        Ok(())
    }

    /// Loads all nodes of a directory from the database, and gives their
    /// identifiers.
    pub fn load_dir(&mut self, db: &TupDb, dir: TupId) -> (r: Vec<TupId>)
        ensures
            r@ == ascending(nodes_in(db@.tables.nodes, dir)),
            final(self)@ == old(self)@.add_rows(
                rows_at(db@.tables.nodes, ascending(nodes_in(db@.tables.nodes, dir))),
            ),
    {
        let rows = db.node_select_dir(dir);
        let ghost ids = ascending(nodes_in(db@.tables.nodes, dir));
        let ghost all = row_texts(rows@);
        let mut out: Vec<TupId> = Vec::new();
        let _ = db.node_ids();
        let mut i: usize = 0;
        while i < rows.len()
            invariant
                i <= rows.len(),
                all == row_texts(rows@),
                all == rows_at(db@.tables.nodes, ids),
                lists(ids, nodes_in(db@.tables.nodes, dir)),
                crate::db::rows::unique_names(db@.tables.nodes),
                out@ == ids.take(i as int),
                self@ == old(self)@.add_rows(all.take(i as int)),
            decreases rows.len() - i,
        {
            proof {
                assert(all.len() == rows@.len());
                assert(all[i as int] == rows@[i as int]@);
                assert(rows_at(db@.tables.nodes, ids)[i as int] == db@.tables.nodes[ids[i as int]]);
                assert(all[i as int] == db@.tables.nodes[ids[i as int]]);
                assert(ids.contains(ids[i as int]));
                assert(db@.tables.nodes.dom().contains(ids[i as int]));
                assert(all.take(i + 1).drop_last() =~= all.take(i as int));
                assert(ids.take(i + 1) =~= ids.take(i as int).push(ids[i as int]));
            }
            let entry = TupEntry::from_node_row(&rows[i]);
            out.push(entry.id);
            let _ = self.add(entry);
            i += 1;
        }
        proof {
            assert(all.take(all.len() as int) =~= all);
            assert(ids.take(ids.len() as int) =~= ids);
            assert(all.len() == rows@.len());
        }
        out
    }

    /// Removes an entry. Fails where it has users, or where another entry is in
    /// it.
    pub fn remove(&mut self, id: TupId) -> (r: Result<(), DbError>)
        ensures
            match (r, old(self)@.remove_error(id)) {
                (Ok(()), None) => true,
                (Err(e), Some(t)) => e@ == t,
                _ => false,
            },
            final(self)@ == old(self)@.remove(id),
    {
        let key = match self.entries.get(&id) {
            Some(e) => {
                assert(self@.entries.dom().contains(id));
                if e.refcount != 0 {
                    let a = i64_to_string(id.raw());
                    let b = i64_to_string(e.refcount as i64);
                    let head = concat3("cannot remove entry ", a.as_str(), ": refcount is ");
                    return Err(DbError::Other(concat2(head.as_str(), b.as_str())));
                }
                NameKey(e.dt, e.name.clone())
            },
            None => {
                return Ok(());
            },
        };
        if self.children(id) {
            let a = i64_to_string(id.raw());
            return Err(
                DbError::Other(
                    concat3("cannot remove entry ", a.as_str(), ": still has children"),
                ),
            );
        }
        let ghost before = self@;
        proof {
            lemma_deep_remove(self.entries@, id);
        }
        let _ = self.name_index.remove(&key);
        let _ = self.entries.remove(&id);
        Ok(())
    }

    fn children(&self, id: TupId) -> (r: bool)
        ensures
            r == self@.has_children(id),
    {
        let n = self.entries.len();
        let ghost p = self.entries.pairs();
        let mut i: usize = 0;
        while i < n
            invariant
                i <= n,
                n == self.entries.pairs().len(),
                p == self.entries.pairs(),
                forall|j: int|
                    0 <= j < i ==> !((#[trigger] p[j]).1@.row.dir == id && p[j].1@.row.id != id),
            decreases n - i,
        {
            let (k, e) = self.entries.at(i);
            if e.dt == id && e.id != id {
                proof {
                    assert(self@.entries.dom().contains(k@));
                    assert(self@.entries[k@] == e@);
                }
                return true;
            }
            i += 1;
        }
        proof {
            if self@.has_children(id) {
                let x = choose|x: TupId| #[trigger]
                    self@.entries.dom().contains(x) && self@.entries[x].row.dir == id
                        && self@.entries[x].row.id != id;
                assert(self.entries@.dom().contains(x));
                let j = choose|j: int| 0 <= j < p.len() && #[trigger] p[j].0@ == x;
                assert(p[j].1@.row.dir == id);
            }
        }
        false
    }

    /// Sets the name and the directory of an entry. The name stands for the
    /// identifier even where there is no such entry.
    pub fn change_name(&mut self, id: TupId, new_name: &str, new_dt: TupId) -> (r: Result<
        (),
        DbError,
    >)
        ensures
            r is Ok,
            final(self)@ == old(self)@.rename(id, new_name@, new_dt),
    {
        let ghost before = self@;
        if let Some(e) = self.entries.remove(&id) {
            let mut entry = e;
            let ghost text = entry@;
            proof {
                assert(before.entries.dom().contains(id));
                assert(before.entries[id] == text);
            }
            let _ = self.name_index.remove(&NameKey(entry.dt, entry.name.clone()));
            entry.name = copy_str(new_name);
            entry.dt = new_dt;
            proof {
                assert(entry@ == EntryText {
                    row: RowText { name: new_name@, dir: new_dt, ..text.row },
                    ..text
                });
                lemma_deep_remove(old(self).entries@, id);
                lemma_deep_insert(self.entries@, id, entry);
                assert(before.entries.remove(id).insert(id, entry@) =~= before.entries.insert(
                    id,
                    entry@,
                ));
            }
            self.entries.insert(id, entry);
        } else {
            proof {
                assert(!before.entries.dom().contains(id));
                assert(self.entries@ =~= old(self).entries@);
            }
        }
        self.name_index.insert(NameKey(new_dt, copy_str(new_name)), id);
        Ok(())
    }

    /// Takes an entry out for a change of its row. The name index stays.
    fn take(&mut self, id: TupId) -> (r: Option<TupEntry>)
        ensures
            match r {
                Some(e) => {
                    &&& old(self)@.entries.dom().contains(id)
                    &&& e@ == old(self)@.entries[id]
                    &&& final(self)@ == (CacheText {
                        entries: old(self)@.entries.remove(id),
                        ..old(self)@
                    })
                },
                None => !old(self)@.entries.dom().contains(id) && final(self)@ == old(self)@,
            },
    {
        let ghost before = self@;
        proof {
            lemma_deep_remove(self.entries@, id);
            if !before.entries.dom().contains(id) {
                assert(before.entries.remove(id) =~= before.entries);
            }
        }
        self.entries.remove(&id)
    }

    /// Puts an entry back that was taken out.
    fn put_back(&mut self, id: TupId, entry: TupEntry)
        ensures
            final(self)@ == (CacheText {
                entries: old(self)@.entries.insert(id, entry@),
                ..old(self)@
            }),
    {
        proof {
            lemma_deep_insert(self.entries@, id, entry);
        }
        self.entries.insert(id, entry);
    }

    /// Sets what is shown in place of a command.
    pub fn change_display(&mut self, id: TupId, display: Option<&str>)
        ensures
            final(self)@ == old(self)@.with_row(
                id,
                RowText { display: opt_str(display), ..old(self)@.entries[id].row },
            ),
    {
        let ghost before = self@;
        if let Some(e) = self.take(id) {
            let mut entry = e;
            entry.display = match display {
                Some(s) => Some(copy_str(s)),
                None => None,
            };
            self.put_back(id, entry);
            assert(self@.entries =~= before.entries.insert(id, entry@));
        }
    }

    /// Sets the flags of an entry.
    pub fn change_flags(&mut self, id: TupId, flags: Option<&str>)
        ensures
            final(self)@ == old(self)@.with_row(
                id,
                RowText { flags: opt_str(flags), ..old(self)@.entries[id].row },
            ),
    {
        let ghost before = self@;
        if let Some(e) = self.take(id) {
            let mut entry = e;
            entry.flags = match flags {
                Some(s) => Some(copy_str(s)),
                None => None,
            };
            self.put_back(id, entry);
            assert(self@.entries =~= before.entries.insert(id, entry@));
        }
    }

    /// Sets what an entry is.
    pub fn change_type(&mut self, id: TupId, node_type: NodeType)
        ensures
            final(self)@ == old(self)@.set_type(id, node_type),
    {
        let ghost before = self@;
        if let Some(e) = self.take(id) {
            let mut entry = e;
            entry.node_type = node_type;
            self.put_back(id, entry);
            assert(self@.entries =~= before.entries.insert(id, entry@));
        }
    }

    /// Adds a user to an entry.
    pub fn add_ref(&mut self, id: TupId)
        ensures
            final(self)@ == if old(self)@.entries.dom().contains(id) {
                let e = old(self)@.entries[id];
                CacheText {
                    entries: old(self)@.entries.insert(
                        id,
                        EntryText { refs: wrapped(e.refs + 1), ..e },
                    ),
                    ..old(self)@
                }
            } else {
                old(self)@
            },
    {
        let ghost before = self@;
        if let Some(e) = self.take(id) {
            let mut entry = e;
            entry.add_ref();
            self.put_back(id, entry);
            assert(self@.entries =~= before.entries.insert(id, entry@));
        }
    }

    /// Takes a user away from an entry.
    pub fn del_ref(&mut self, id: TupId)
        ensures
            final(self)@ == if old(self)@.entries.dom().contains(id) {
                let e = old(self)@.entries[id];
                CacheText {
                    entries: old(self)@.entries.insert(
                        id,
                        EntryText { refs: wrapped(e.refs - 1), ..e },
                    ),
                    ..old(self)@
                }
            } else {
                old(self)@
            },
    {
        let ghost before = self@;
        if let Some(e) = self.take(id) {
            let mut entry = e;
            entry.del_ref();
            self.put_back(id, entry);
            assert(self@.entries =~= before.entries.insert(id, entry@));
        }
    }

    /// The number of entries.
    pub fn len(&self) -> (r: usize)
        ensures
            r == self@.entries.dom().len(),
    {
        assert(self@.entries.dom() =~= self.entries@.dom());
        self.entries.len()
    }

    /// Whether there are no entries.
    pub fn is_empty(&self) -> (r: bool)
        ensures
            r == (self@.entries.dom().len() == 0),
    {
        self.len() == 0
    }

    /// Removes all entries.
    pub fn clear(&mut self)
        ensures
            final(self)@ == (CacheText { entries: Map::empty(), names: Map::empty() }),
    {
        self.entries = OrdMap::new();
        self.name_index = OrdMap::new();
        assert(self@.entries =~= Map::<TupId, EntryText>::empty());
    }

    /// All entries in the order of their identifiers.
    pub fn iter(&self) -> (r: Vec<(TupId, &TupEntry)>)
        ensures
            r@.len() == ascending(self@.entries.dom()).len(),
            lists(ascending(self@.entries.dom()), self@.entries.dom()),
            forall|i: int|
                0 <= i < r@.len() ==> (#[trigger] r@[i]).0 == ascending(self@.entries.dom())[i]
                    && r@[i].1@ == self@.entries[r@[i].0],
    {
        let ids = crate::ids::ids_of(&self.entries);
        assert(self@.entries.dom() =~= self.entries@.dom());
        let mut out: Vec<(TupId, &TupEntry)> = Vec::new();
        let mut i: usize = 0;
        while i < ids.len()
            invariant
                i <= ids.len(),
                out@.len() == i,
                lists(ids@, self@.entries.dom()),
                forall|j: int|
                    0 <= j < i ==> (#[trigger] out@[j]).0 == ids@[j] && out@[j].1@
                        == self@.entries[ids@[j]],
            decreases ids.len() - i,
        {
            assert(ids@.contains(ids@[i as int]));
            out.push((ids[i], self.get(ids[i])));
            i += 1;
        }
        out
    }

    /// The path of an entry.
    pub fn full_path(&self, id: TupId) -> (r: Option<String>)
        requires
            self@.entries.dom().contains(id) ==> exists|n: nat| #[trigger]
                up_ends(self@.entries, self@.entries[id].row.dir, n),
        ensures
            r is Some <==> self@.entries.dom().contains(id),
            r is Some ==> forall|n: nat| #[trigger]
                up_ends(self@.entries, self@.entries[id].row.dir, n) ==> r->0@ == path_of(
                    self@.entries,
                    self@.entries[id].row,
                    n,
                ),
    {
        match self.find(id) {
            Some(e) => Some(e.full_path(self)),
            None => None,
        }
    }

    /// The path from one entry to another, or `None` where the way from one of
    /// them to the top leads to a node that is not in memory, or where no
    /// directory is above both.
    pub fn relative_path(&self, start: TupId, end: TupId) -> (r: Option<String>)
        requires
            exists|n: nat| #[trigger] line_ends(self@.entries, start, n),
            exists|n: nat| #[trigger] line_ends(self@.entries, end, n),
        ensures
            forall|n: nat, m: nat|
                #![trigger line_ends(self@.entries, start, n), line_ends(self@.entries, end, m)]
                line_ends(self@.entries, start, n) && line_ends(self@.entries, end, m) ==> (
                match r {
                    Some(path) => {
                        &&& line_whole(self@.entries, start, n)
                        &&& line_whole(self@.entries, end, m)
                        &&& common_len(
                            line(self@.entries, start, n).reverse(),
                            line(self@.entries, end, m).reverse(),
                        ) > 0
                        &&& path@ == way(
                            self@.entries,
                            line(self@.entries, start, n).reverse(),
                            line(self@.entries, end, m).reverse(),
                        )
                    },
                    None => {
                        ||| !line_whole(self@.entries, start, n)
                        ||| !line_whole(self@.entries, end, m)
                        ||| common_len(
                            line(self@.entries, start, n).reverse(),
                            line(self@.entries, end, m).reverse(),
                        ) == 0
                    },
                }),
    {
        let from = match self.ancestor_chain(start) {
            Some(c) => c,
            None => {
                return None;
            },
        };
        let to = match self.ancestor_chain(end) {
            Some(c) => c,
            None => {
                return None;
            },
        };
        let ghost entries = self@.entries;
        let mut common: usize = 0;
        assert(from@.skip(0) =~= from@);
        assert(to@.skip(0) =~= to@);
        while common < from.len() && common < to.len() && from[common] == to[common]
            invariant
                common <= from.len(),
                common <= to.len(),
                common_len(from@, to@) == common + common_len(
                    from@.skip(common as int),
                    to@.skip(common as int),
                ),
            decreases from.len() - common,
        {
            proof {
                assert(from@.skip(common as int).drop_first() =~= from@.skip(common + 1));
                assert(to@.skip(common as int).drop_first() =~= to@.skip(common + 1));
            }
            common += 1;
        }
        if common == 0 {
            return None;
        }
        let ghost head = Seq::new((from@.len() - common) as nat, |i: int| ".."@);
        let ghost tail = names_of(entries, to@.skip(common as int));
        let mut parts: Vec<String> = Vec::new();
        let mut i: usize = common;
        while i < from.len()
            invariant
                common <= i <= from.len(),
                parts@.len() == i - common,
                forall|j: int| 0 <= j < parts@.len() ==> (#[trigger] parts@[j])@ == ".."@,
            decreases from.len() - i,
        {
            parts.push(copy_str(".."));
            i += 1;
        }
        let mut k: usize = common;
        proof {
            assert(texts(parts@) =~= head);
            assert(texts(parts@) =~= head + tail.take(0));
        }
        while k < to.len()
            invariant
                common <= k <= to.len(),
                entries == self@.entries,
                forall|j: int| 0 <= j < to@.len() ==> entries.dom().contains(#[trigger] to@[j]),
                tail == names_of(entries, to@.skip(common as int)),
                texts(parts@) == head + tail.take(k - common),
            decreases to.len() - k,
        {
            assert(entries.dom().contains(to@[k as int]));
            let ghost before = parts@;
            let e = self.get(to[k]);
            proof {
                assert(tail[k - common] == e.name@);
                assert(tail.take(k - common + 1) =~= tail.take(k - common).push(e.name@));
            }
            parts.push(e.name.clone());
            proof {
                assert(texts(parts@) =~= texts(before).push(e.name@));
                assert(texts(parts@) =~= head + tail.take(k + 1 - common));
            }
            k += 1;
        }
        assert(tail.take(tail.len() as int) =~= tail);
        assert(texts(parts@).len() == parts@.len());
        if parts.len() == 0 {
            Some(copy_str("."))
        } else {
            Some(join_strings(parts.as_slice(), "/"))
        }
    }

    /// The nodes from the top down to an entry.
    fn ancestor_chain(&self, id: TupId) -> (r: Option<Vec<TupId>>)
        requires
            exists|n: nat| #[trigger] line_ends(self@.entries, id, n),
        ensures
            forall|n: nat| #[trigger]
                line_ends(self@.entries, id, n) ==> match r {
                    Some(c) => line_whole(self@.entries, id, n) && c@ == line(
                        self@.entries,
                        id,
                        n,
                    ).reverse(),
                    None => !line_whole(self@.entries, id, n),
                },
            r is Some ==> forall|i: int|
                0 <= i < r->0@.len() ==> self@.entries.dom().contains(#[trigger] r->0@[i]),
    {
        let ghost entries = self@.entries;
        let ghost top = choose|n: nat| #[trigger] line_ends(entries, id, n);
        let ghost mut left = top;
        let mut chain: Vec<TupId> = Vec::new();
        let mut current = id;
        let mut going = true;
        assert(chain@ + line(entries, id, top) =~= line(entries, id, top));
        proof {
            assert forall|n: nat| #[trigger] line_ends(entries, id, n) implies line(entries, id, n)
                == line(entries, id, top) && line_whole(entries, id, n) == line_whole(
                entries,
                id,
                top,
            ) by {
                lemma_lines_agree(entries, id, n, top);
            }
        }
        while going
            invariant
                entries == self@.entries,
                forall|n: nat| #[trigger]
                    line_ends(entries, id, n) ==> line(entries, id, n) == line(entries, id, top)
                        && line_whole(entries, id, n) == line_whole(entries, id, top),
                going ==> {
                    &&& line_ends(entries, current, left)
                    &&& line(entries, id, top) == chain@ + line(entries, current, left)
                    &&& line_whole(entries, id, top) == line_whole(entries, current, left)
                },
                !going ==> line(entries, id, top) == chain@ && line_whole(entries, id, top),
            decreases left, (if going { 1int } else { 0int }),
        {
            let dt = match self.find(current) {
                Some(e) => e.dt,
                None => {
                    return None;
                },
            };
            let ghost before = chain@;
            chain.push(current);
            if dt.raw() <= 0 || dt == current {
                going = false;
                assert(before + seq![current] =~= chain@);
            } else {
                proof {
                    let rest = line(entries, dt, (left - 1) as nat);
                    assert(before + (seq![current] + rest) =~= chain@ + rest);
                    left = (left - 1) as nat;
                }
                current = dt;
            }
        }
        let mut out: Vec<TupId> = Vec::new();
        let mut i: usize = chain.len();
        while i > 0
            invariant
                i <= chain.len(),
                out@.len() == chain@.len() - i,
                forall|j: int|
                    0 <= j < out@.len() ==> #[trigger] out@[j] == chain@[chain@.len() - 1 - j],
            decreases i,
        {
            i -= 1;
            out.push(chain[i]);
        }
        proof {
            assert(out@ =~= chain@.reverse());
            lemma_line_known(entries, id, top);
            assert forall|k: int| 0 <= k < out@.len() implies entries.dom().contains(
                #[trigger] out@[k],
            ) by {
                assert(out@[k] == line(entries, id, top)[chain@.len() - 1 - k]);
            }
        }
        Some(out)
    }
}

impl Default for EntryCache {
    fn default() -> (r: Self)
        ensures
            r@ == (CacheText { entries: Map::empty(), names: Map::empty() }),
    {
        EntryCache::new()
    }
}

} // verus!
