//! Changes of nodes in the database and in memory at once.
use vstd::prelude::*;

use crate::db::entry::{fresh, CacheText, EntryCache, TupEntry};
use crate::db::errors::{DbError, DbErrorText};
use crate::db::tables::{TablesText, TupDb, TupFlags};
use crate::parser::reader::opt_str;
use crate::text::{concat2, concat3};
use crate::types::{i64_to_string, ids_are_finite, int_text, node_type_name, NodeType, TupId};

verus! {

/// What the creation of a node came to.
#[derive(Debug, Clone, Copy, PartialEq, Eq, Structural)]
pub enum CreateResult {
    /// The node is new.
    Created(TupId),
    /// The node was there. It may have been a ghost.
    Existing(TupId),
}

impl CreateResult {
    pub open spec fn spec_id(self) -> TupId {
        match self {
            CreateResult::Created(id) => id,
            CreateResult::Existing(id) => id,
        }
    }

    /// The node, whether it is new or not.
    pub fn id(&self) -> (r: TupId)
        ensures
            r == self.spec_id(),
    {
        match self {
            CreateResult::Created(id) => *id,
            CreateResult::Existing(id) => *id,
        }
    }
}

/// The tables of the database and the nodes in memory.
#[verifier::ext_equal]
pub struct World {
    pub tables: TablesText,
    pub cache: CacheText,
}

/// The number of generated directories in memory.
pub open spec fn generated_dirs(cache: CacheText) -> nat {
    Set::new(
        |x: TupId|
            cache.entries.dom().contains(x) && cache.entries[x].row.node_type
                == NodeType::GeneratedDir,
    ).len()
}

/// One generated directory less is left when one becomes an ordinary one.
pub proof fn lemma_one_less(cache: CacheText, id: TupId)
    requires
        cache.entries.dom().contains(id),
        cache.entries[id].row.node_type == NodeType::GeneratedDir,
    ensures
        generated_dirs(cache.set_type(id, NodeType::Dir)) < generated_dirs(cache),
{
    let a = Set::new(
        |x: TupId|
            cache.entries.dom().contains(x) && cache.entries[x].row.node_type
                == NodeType::GeneratedDir,
    );
    let after = cache.set_type(id, NodeType::Dir);
    let b = Set::new(
        |x: TupId|
            after.entries.dom().contains(x) && after.entries[x].row.node_type
                == NodeType::GeneratedDir,
    );
    ids_are_finite(a);
    assert(b =~= a.remove(id));
}

/// How a node comes to be: its place, and what its row holds.
pub struct NewNode {
    pub dir: TupId,
    pub name: Seq<char>,
    pub node_type: NodeType,
    pub srcid: i64,
    pub mtime: i64,
    pub mtime_ns: i64,
    pub display: Option<Seq<char>>,
    pub flags: Option<Seq<char>>,
}

impl TablesText {
    /// What is shown for a node and its flags change where they are given.
    pub open spec fn annotate(
        self,
        id: TupId,
        display: Option<Seq<char>>,
        flags: Option<Seq<char>>,
    ) -> TablesText {
        let shown = if display is Some {
            self.set_display(id, display)
        } else {
            self
        };
        if flags is Some {
            shown.set_flags(id, flags)
        } else {
            shown
        }
    }
}

impl World {
    /// A ghost becomes a node of a type: it is modified, and the directory that
    /// it is in, where that is an ordinary one, is to be parsed.
    pub open spec fn unghost(self, id: TupId, node_type: NodeType) -> World {
        let cache = self.cache.set_type(id, node_type);
        let tables = self.tables.set_type(id, node_type).flag(id, TupFlags::Modify);
        let parent = cache.entries[id].row.dir;
        World {
            tables: if cache.entries.dom().contains(id) && cache.entries.dom().contains(parent)
                && cache.entries[parent].row.node_type == NodeType::Dir {
                tables.flag(parent, TupFlags::Create)
            } else {
                tables
            },
            cache,
        }
    }

    /// A directory, and those above it, as long as they are generated ones,
    /// become ordinary ones.
    pub open spec fn normal_dirs(self, dir: TupId) -> World
        decreases generated_dirs(self.cache),
    {
        if self.cache.entries.dom().contains(dir) && self.cache.entries[dir].row.node_type
            == NodeType::GeneratedDir {
            proof {
                lemma_one_less(self.cache, dir);
            }
            World {
                tables: self.tables.set_type(dir, NodeType::Dir),
                cache: self.cache.set_type(dir, NodeType::Dir),
            }.normal_dirs(self.cache.entries[dir].row.dir)
        } else {
            self
        }
    }

    /// What is in memory of a node is what the database has of it. An entry
    /// that cannot be removed stays as it is.
    pub open spec fn refresh(self, id: TupId) -> World {
        World {
            cache: self.cache.remove(id).add(fresh(self.tables.nodes[id])),
            ..self
        }
    }

    /// A node is created, or the one with its name taken: a ghost takes on the
    /// type, a node of the type stays, and any other one is an error.
    pub open spec fn create(self, new: NewNode) -> (World, Result<CreateResult, DbErrorText>) {
        match self.tables.select(new.dir, new.name) {
            None => match self.tables.new_row(
                new.dir,
                new.name,
                new.node_type,
                new.mtime,
                new.mtime_ns,
                new.srcid,
                new.display,
                new.flags,
            ) {
                Err(e) => (self, Err(e)),
                Ok(row) => {
                    let t = self.tables.put(row);
                    let t = if new.node_type == NodeType::Cmd {
                        t.flag(row.id, TupFlags::Modify)
                    } else if new.node_type == NodeType::Dir {
                        t.flag(row.id, TupFlags::Create)
                    } else {
                        t
                    };
                    (
                        World { tables: t, cache: self.cache.add(fresh(row)) },
                        Ok(CreateResult::Created(row.id)),
                    )
                },
            },
            Some(id) => {
                let row = self.tables.nodes[id];
                if row.node_type == NodeType::GhostNode {
                    let a = self.unghost(id, new.node_type);
                    let t = if new.mtime != -1 {
                        a.tables.set_mtime(id, new.mtime, new.mtime_ns)
                    } else {
                        a.tables
                    };
                    let t = if new.srcid != -1 {
                        t.set_srcid(id, new.srcid)
                    } else {
                        t
                    };
                    (
                        World { tables: t.annotate(id, new.display, new.flags), ..a }.refresh(id),
                        Ok(CreateResult::Existing(id)),
                    )
                } else if row.node_type == new.node_type {
                    let t = if new.srcid != -1 && row.srcid != new.srcid {
                        self.tables.set_srcid(id, new.srcid)
                    } else {
                        self.tables
                    };
                    (
                        World { tables: t.annotate(id, new.display, new.flags), ..self }.refresh(id),
                        Ok(CreateResult::Existing(id)),
                    )
                } else {
                    (
                        self,
                        Err(
                            DbErrorText::Other(
                                "cannot create "@ + node_type_name(new.node_type) + " '"@ + new.name
                                    + "' in dir "@ + int_text(new.dir.0 as int)
                                    + ": already exists as "@ + node_type_name(row.node_type),
                            ),
                        ),
                    )
                }
            },
        }
    }

    /// A file is created: the directory that it is in is to be parsed, and is
    /// an ordinary one, as are those above it.
    pub open spec fn create_file(
        self,
        dir: TupId,
        name: Seq<char>,
        mtime: i64,
        mtime_ns: i64,
    ) -> (World, Result<CreateResult, DbErrorText>) {
        let (w, r) = self.create(new_file(dir, name, mtime, mtime_ns));
        match r {
            Err(e) => (w, Err(e)),
            Ok(c) => (
                World { tables: w.tables.flag(dir, TupFlags::Create), ..w }.normal_dirs(dir),
                Ok(c),
            ),
        }
    }

    /// A node is gone, with all links and all pending work.
    pub open spec fn delete(self, id: TupId) -> World {
        World { tables: self.tables.erase(id), cache: self.cache.remove(id) }
    }

    /// A file was seen on disk. The result is its node, and whether it is new
    /// or changed. What uses a changed file is to run, and what depends on it is
    /// to be parsed.
    pub open spec fn file_seen(
        self,
        dir: TupId,
        name: Seq<char>,
        mtime: i64,
        mtime_ns: i64,
    ) -> (World, Result<(TupId, bool), DbErrorText>) {
        match self.tables.select(dir, name) {
            None => {
                let (w, r) = self.create_file(dir, name, mtime, mtime_ns);
                match r {
                    Err(e) => (w, Err(e)),
                    Ok(c) => (w, Ok((c.spec_id(), true))),
                }
            },
            Some(id) => {
                let row = self.tables.nodes[id];
                if row.node_type == NodeType::GhostNode {
                    let w = self.unghost(id, NodeType::File);
                    (
                        World { tables: w.tables.set_mtime(id, mtime, mtime_ns), ..w },
                        Ok((id, true)),
                    )
                } else if row.mtime != mtime || row.mtime_ns != mtime_ns {
                    (
                        World {
                            tables: self.tables.set_mtime(id, mtime, mtime_ns).flag(
                                id,
                                TupFlags::Modify,
                            ).modify_users(id).flag_dependents(id),
                            ..self
                        },
                        Ok((id, true)),
                    )
                } else {
                    (self, Ok((id, false)))
                }
            },
        }
    }

    /// A file or directory is gone from disk.
    pub open spec fn file_gone(self, dir: TupId, name: Seq<char>) -> (World, bool) {
        match self.tables.select(dir, name) {
            None => (self, false),
            Some(id) => match self.tables.nodes[id].node_type {
                NodeType::GhostNode => (self, false),
                NodeType::Group => (self, false),
                NodeType::File => (
                    World { tables: self.tables.flag(dir, TupFlags::Create), ..self }.delete(id),
                    true,
                ),
                NodeType::Generated => (
                    World { tables: self.tables.flag(dir, TupFlags::Create), ..self }.delete(id),
                    true,
                ),
                _ => (self.delete(id), true),
            },
        }
    }
}

pub open spec fn new_file(dir: TupId, name: Seq<char>, mtime: i64, mtime_ns: i64) -> NewNode {
    NewNode {
        dir,
        name,
        node_type: NodeType::File,
        srcid: -1i64,
        mtime,
        mtime_ns,
        display: None,
        flags: None,
    }
}

/// The state of a database and a cache.
pub open spec fn world(db: TupDb, cache: EntryCache) -> World {
    World { tables: db@.tables, cache: cache@ }
}

impl TupDb {
    /// Creates a file. Its directory is to be parsed, and the generated
    /// directories that it is in become ordinary ones.
    pub fn create_name_file(
        &mut self,
        cache: &mut EntryCache,
        dir: TupId,
        name: &str,
        mtime: i64,
        mtime_ns: i64,
    ) -> (r: Result<CreateResult, DbError>)
        ensures
            ({
                let (w, t) = world(*old(self), *old(cache)).create_file(
                    dir,
                    name@,
                    mtime,
                    mtime_ns,
                );
                &&& final(self)@ == old(self)@.with(w.tables)
                &&& final(cache)@ == w.cache
                &&& match (r, t) {
                    (Ok(a), Ok(b)) => a == b,
                    (Err(a), Err(b)) => a@ == b,
                    _ => false,
                }
            }),
    {
        let result = match self.create_node(cache, dir, name, NodeType::File, -1, mtime, mtime_ns) {
            Ok(c) => c,
            Err(e) => {
                return Err(e);
            },
        };
        self.flag_add(dir, TupFlags::Create);
        self.make_dirs_normal(cache, dir);
        Ok(result)
    }

    /// Creates a command.
    pub fn create_command_file(
        &mut self,
        cache: &mut EntryCache,
        dir: TupId,
        cmd: &str,
        display: Option<&str>,
        flags: Option<&str>,
    ) -> (r: Result<TupId, DbError>)
        ensures
            ({
                let (w, t) = world(*old(self), *old(cache)).create(
                    (NewNode {
                        dir,
                        name: cmd@,
                        node_type: NodeType::Cmd,
                        srcid: -1i64,
                        mtime: -1i64,
                        mtime_ns: 0,
                        display: opt_str(display),
                        flags: opt_str(flags),
                    }),
                );
                &&& final(self)@ == old(self)@.with(w.tables)
                &&& final(cache)@ == w.cache
                &&& match (r, t) {
                    (Ok(a), Ok(b)) => a == b.spec_id(),
                    (Err(a), Err(b)) => a@ == b,
                    _ => false,
                }
            }),
    {
        match self.create_node_with_display(
            cache,
            dir,
            cmd,
            NodeType::Cmd,
            -1,
            -1,
            0,
            display,
            flags,
        ) {
            Ok(c) => Ok(c.id()),
            Err(e) => Err(e),
        }
    }

    /// Creates a node, or takes the one that has its name: see
    /// [`TupDb::create_node_with_display`].
    pub fn create_node(
        &mut self,
        cache: &mut EntryCache,
        dir: TupId,
        name: &str,
        node_type: NodeType,
        srcid: i64,
        mtime: i64,
        mtime_ns: i64,
    ) -> (r: Result<CreateResult, DbError>)
        ensures
            ({
                let (w, t) = world(*old(self), *old(cache)).create(
                    (NewNode {
                        dir,
                        name: name@,
                        node_type,
                        srcid,
                        mtime,
                        mtime_ns,
                        display: None,
                        flags: None,
                    }),
                );
                &&& final(self)@ == old(self)@.with(w.tables)
                &&& final(cache)@ == w.cache
                &&& match (r, t) {
                    (Ok(a), Ok(b)) => a == b,
                    (Err(a), Err(b)) => a@ == b,
                    _ => false,
                }
            }),
    {
        self.create_node_with_display(
            cache,
            dir,
            name,
            node_type,
            srcid,
            mtime,
            mtime_ns,
            None,
            None,
        )
    }

    /// Creates a node. Where its directory has a node of its name, a ghost
    /// takes on the type, a node of the same type stays, and one of another
    /// type is an error.
    pub fn create_node_with_display(
        &mut self,
        cache: &mut EntryCache,
        dir: TupId,
        name: &str,
        node_type: NodeType,
        srcid: i64,
        mtime: i64,
        mtime_ns: i64,
        display: Option<&str>,
        flags: Option<&str>,
    ) -> (r: Result<CreateResult, DbError>)
        ensures
            ({
                let (w, t) = world(*old(self), *old(cache)).create(
                    (NewNode {
                        dir,
                        name: name@,
                        node_type,
                        srcid,
                        mtime,
                        mtime_ns,
                        display: opt_str(display),
                        flags: opt_str(flags),
                    }),
                );
                &&& final(self)@ == old(self)@.with(w.tables)
                &&& final(cache)@ == w.cache
                &&& match (r, t) {
                    (Ok(a), Ok(b)) => a == b,
                    (Err(a), Err(b)) => a@ == b,
                    _ => false,
                }
            }),
    {
        let row = match self.node_select(dir, name) {
            None => {
                let id = match self.node_insert(
                    dir,
                    name,
                    node_type,
                    mtime,
                    mtime_ns,
                    srcid,
                    display,
                    flags,
                ) {
                    Ok(id) => id,
                    Err(e) => {
                        return Err(e);
                    },
                };
                if let Some(row) = self.node_select_by_id(id) {
                    let _ = cache.add(TupEntry::from_node_row(&row));
                }
                if node_type == NodeType::Cmd {
                    self.flag_add(id, TupFlags::Modify);
                }
                if node_type == NodeType::Dir {
                    self.flag_add(id, TupFlags::Create);
                }
                return Ok(CreateResult::Created(id));
            },
            Some(row) => row,
        };
        let id = row.id;
        if row.node_type == NodeType::GhostNode {
            self.ghost_to_type(cache, id, node_type);
            if mtime != -1 {
                self.node_set_mtime(id, mtime, mtime_ns);
            }
            if srcid != -1 {
                self.node_set_srcid(id, srcid);
            }
            self.annotate(id, display, flags);
            self.refresh_entry(cache, id);
            Ok(CreateResult::Existing(id))
        } else if row.node_type == node_type {
            if srcid != -1 && row.srcid != srcid {
                self.node_set_srcid(id, srcid);
            }
            self.annotate(id, display, flags);
            self.refresh_entry(cache, id);
            Ok(CreateResult::Existing(id))
        } else {
            let d = i64_to_string(dir.raw());
            let a = concat3("cannot create ", node_type.name(), " '");
            let b = concat3(a.as_str(), name, "' in dir ");
            let c = concat3(b.as_str(), d.as_str(), ": already exists as ");
            Err(DbError::Other(concat2(c.as_str(), row.node_type.name())))
        }
    }

    fn annotate(&mut self, id: TupId, display: Option<&str>, flags: Option<&str>)
        ensures
            final(self)@ == old(self)@.with(
                old(self)@.tables.annotate(id, opt_str(display), opt_str(flags)),
            ),
    {
        if display.is_some() {
            self.node_set_display(id, display);
        }
        if flags.is_some() {
            self.node_set_flags(id, flags);
        }
    }

    /// Puts a node into the cache as the database has it.
    fn refresh_entry(&self, cache: &mut EntryCache, id: TupId)
        requires
            self@.tables.nodes.dom().contains(id),
        ensures
            final(cache)@ == old(cache)@.remove(id).add(fresh(self@.tables.nodes[id])),
    {
        if let Some(row) = self.node_select_by_id(id) {
            let _ = cache.remove(id);
            let _ = cache.add(TupEntry::from_node_row(&row));
        }
    }

    /// Removes a node, its links and all work that is pending for it.
    pub fn delete_name_file(&mut self, cache: &mut EntryCache, id: TupId)
        ensures
            ({
                let w = world(*old(self), *old(cache)).delete(id);
                &&& final(self)@ == old(self)@.with(w.tables)
                &&& final(cache)@ == w.cache
            }),
    {
        self.flags_remove_all(id);
        self.links_delete(id);
        let _ = self.node_delete(id);
        let _ = cache.remove(id);
    }

    /// Makes a ghost a node of a type.
    pub(crate) fn ghost_to_type(
        &mut self,
        cache: &mut EntryCache,
        id: TupId,
        target_type: NodeType,
    )
        ensures
            ({
                let w = world(*old(self), *old(cache)).unghost(id, target_type);
                &&& final(self)@ == old(self)@.with(w.tables)
                &&& final(cache)@ == w.cache
            }),
    {
        self.node_set_type(id, target_type);
        cache.change_type(id, target_type);
        self.flag_add(id, TupFlags::Modify);
        if let Some(entry) = cache.find(id) {
            let parent_id = entry.dt;
            if let Some(parent) = cache.find(parent_id) {
                if parent.node_type == NodeType::Dir {
                    self.flag_add(parent_id, TupFlags::Create);
                }
            }
        }
    }

    /// Makes a generated directory, and those above it, ordinary ones.
    fn make_dirs_normal(&mut self, cache: &mut EntryCache, dir: TupId)
        ensures
            ({
                let w = world(*old(self), *old(cache)).normal_dirs(dir);
                &&& final(self)@ == old(self)@.with(w.tables)
                &&& final(cache)@ == w.cache
            }),
    {
        let ghost target = world(*self, *cache).normal_dirs(dir);
        let mut current = dir;
        let mut going = true;
        while going
            invariant
                self@.saved == old(self)@.saved,
                going ==> world(*self, *cache).normal_dirs(current) == target,
                !going ==> world(*self, *cache) == target,
            decreases generated_dirs(cache@), (if going { 1int } else { 0int }),
        {
            let mut parent: Option<TupId> = None;
            if let Some(entry) = cache.find(current) {
                if entry.node_type == NodeType::GeneratedDir {
                    parent = Some(entry.dt);
                }
            }
            match parent {
                None => {
                    going = false;
                },
                Some(p) => {
                    proof {
                        lemma_one_less(cache@, current);
                    }
                    self.node_set_type(current, NodeType::Dir);
                    cache.change_type(current, NodeType::Dir);
                    current = p;
                },
            }
        }
    }

    /// Takes note of a file that is new or changed, and says which node it is
    /// and whether anything changed.
    pub fn file_mod(
        &mut self,
        cache: &mut EntryCache,
        dir: TupId,
        name: &str,
        mtime: i64,
        mtime_ns: i64,
    ) -> (r: Result<(TupId, bool), DbError>)
        ensures
            ({
                let (w, t) = world(*old(self), *old(cache)).file_seen(dir, name@, mtime, mtime_ns);
                &&& final(self)@ == old(self)@.with(w.tables)
                &&& final(cache)@ == w.cache
                &&& match (r, t) {
                    (Ok(a), Ok(b)) => a == b,
                    (Err(a), Err(b)) => a@ == b,
                    _ => false,
                }
            }),
    {
        match self.node_select(dir, name) {
            None => match self.create_name_file(cache, dir, name, mtime, mtime_ns) {
                Ok(c) => Ok((c.id(), true)),
                Err(e) => Err(e),
            },
            Some(row) => {
                if row.node_type == NodeType::GhostNode {
                    self.ghost_to_type(cache, row.id, NodeType::File);
                    self.node_set_mtime(row.id, mtime, mtime_ns);
                    Ok((row.id, true))
                } else if row.mtime != mtime || row.mtime_ns != mtime_ns {
                    self.node_set_mtime(row.id, mtime, mtime_ns);
                    self.flag_add(row.id, TupFlags::Modify);
                    self.modify_cmds_by_input(row.id);
                    self.set_dependent_flags(row.id);
                    Ok((row.id, true))
                } else {
                    Ok((row.id, false))
                }
            },
        }
    }

    /// Takes note of a file or directory that is gone, and says whether a node
    /// was removed. Ghosts and groups stay.
    pub fn file_del(&mut self, cache: &mut EntryCache, dir: TupId, name: &str) -> (r: bool)
        ensures
            ({
                let (w, t) = world(*old(self), *old(cache)).file_gone(dir, name@);
                &&& final(self)@ == old(self)@.with(w.tables)
                &&& final(cache)@ == w.cache
                &&& r == t
            }),
    {
        match self.node_select(dir, name) {
            None => false,
            Some(row) => match row.node_type {
                NodeType::GhostNode | NodeType::Group => false,
                NodeType::File | NodeType::Generated => {
                    self.flag_add(dir, TupFlags::Create);
                    self.delete_name_file(cache, row.id);
                    true
                },
                _ => {
                    self.delete_name_file(cache, row.id);
                    true
                },
            },
        }
    }
}

} // verus!
