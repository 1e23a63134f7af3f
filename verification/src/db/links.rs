//! Questions about links and nodes, and what a change makes pending.
use vstd::prelude::*;

use crate::db::errors::{DbError, DbErrorText};
use crate::db::rows::{row_texts, rows_at, rows_where, NodeRow, RowText};
use crate::db::tables::{dot, dot_dt, ins, lemma_take_to_set, outs, TablesText, TupDb, TupFlags};
use crate::ids::{
    ascending, ascending_is_unique, has_id, ids_without, increasing, lemma_increasing_no_duplicates,
    lists,
};
use crate::text::concat3;
use crate::types::{NodeType, TupId};

verus! {

// ------------------------------------------------ sets of nodes

/// The nodes in a directory.
pub open spec fn nodes_in(nodes: Map<TupId, RowText>, dir: TupId) -> Set<TupId> {
    rows_where(nodes, |r: RowText| r.dir == dir)
}

/// The nodes of a type in a directory.
pub open spec fn nodes_in_of(
    nodes: Map<TupId, RowText>,
    dir: TupId,
    node_type: NodeType,
) -> Set<TupId> {
    rows_where(nodes, |r: RowText| r.dir == dir && r.node_type == node_type)
}

/// The nodes of a type.
pub open spec fn nodes_of(nodes: Map<TupId, RowText>, node_type: NodeType) -> Set<TupId> {
    rows_where(nodes, |r: RowText| r.node_type == node_type)
}

/// The nodes of a type that come from a node.
pub open spec fn nodes_from(
    nodes: Map<TupId, RowText>,
    srcid: TupId,
    node_type: NodeType,
) -> Set<TupId> {
    rows_where(nodes, |r: RowText| r.srcid == srcid.0 && r.node_type == node_type)
}

impl TablesText {
    /// Those nodes of a set that are there.
    pub open spec fn known(self, s: Set<TupId>) -> Set<TupId> {
        s.intersect(self.nodes.dom())
    }

    /// Those nodes of a set that are of a type.
    pub open spec fn known_of(self, s: Set<TupId>, node_type: NodeType) -> Set<TupId> {
        s.intersect(nodes_of(self.nodes, node_type))
    }

    /// The commands and groups that use a node as an input.
    pub open spec fn users(self, id: TupId) -> Set<TupId> {
        let linked = outs(self.normal, id).union(outs(self.sticky, id));
        self.known_of(linked, NodeType::Cmd).union(self.known_of(linked, NodeType::Group))
    }

    /// All commands that produce a node are to run.
    pub open spec fn modify_producers(self, id: TupId) -> TablesText {
        self.flag_set(ins(self.normal, id), TupFlags::Modify)
    }

    /// All commands and groups that use a node are to run.
    pub open spec fn modify_users(self, id: TupId) -> TablesText {
        self.flag_set(self.users(id), TupFlags::Modify)
    }

    /// All directories that a normal link leads to are to be parsed.
    pub open spec fn flag_dependent_dirs(self, id: TupId) -> TablesText {
        self.flag_set(self.known_of(outs(self.normal, id), NodeType::Dir), TupFlags::Create)
    }

    /// The configurations of all directories that a sticky link leads to are to
    /// be read.
    pub open spec fn flag_dependent_configs(self, id: TupId) -> TablesText {
        self.flag_set(self.known_of(outs(self.sticky, id), NodeType::Dir), TupFlags::Config)
    }

    pub open spec fn flag_dependents(self, id: TupId) -> TablesText {
        self.flag_dependent_dirs(id).flag_dependent_configs(id)
    }
}

// ------------------------------------------------ a condition on a row

/// A condition on a row: each part that is there must hold. Two types are
/// alternatives.
struct Want {
    dir: Option<TupId>,
    srcid: Option<i64>,
    node_type: Option<NodeType>,
    or_type: Option<NodeType>,
}

impl Want {
    spec fn holds(self, r: RowText) -> bool {
        &&& self.dir is Some ==> r.dir == self.dir->0
        &&& self.srcid is Some ==> r.srcid == self.srcid->0
        &&& self.node_type is Some ==> r.node_type == self.node_type->0 || (self.or_type is Some
            && r.node_type == self.or_type->0)
    }

    fn check(&self, r: &NodeRow) -> (b: bool)
        ensures
            b == self.holds(r@),
    {
        if let Some(d) = self.dir {
            if r.dir != d {
                return false;
            }
        }
        if let Some(s) = self.srcid {
            if r.srcid != s {
                return false;
            }
        }
        match self.node_type {
            None => true,
            Some(t) => r.node_type == t || match self.or_type {
                Some(u) => r.node_type == u,
                None => false,
            },
        }
    }
}

fn any() -> (r: Want)
    ensures
        forall|row: RowText| r.holds(row),
{
    Want { dir: None, srcid: None, node_type: None, or_type: None }
}

fn of_type(t: NodeType) -> (r: Want)
    ensures
        forall|row: RowText| r.holds(row) <==> row.node_type == t,
{
    Want { dir: None, srcid: None, node_type: Some(t), or_type: None }
}

fn of_types(t: NodeType, u: NodeType) -> (r: Want)
    ensures
        forall|row: RowText| r.holds(row) <==> row.node_type == t || row.node_type == u,
{
    Want { dir: None, srcid: None, node_type: Some(t), or_type: Some(u) }
}

/// The nodes of a set that are there and satisfy a condition.
spec fn picked(nodes: Map<TupId, RowText>, s: Set<TupId>, w: Want) -> Set<TupId> {
    Set::new(|id: TupId| s.contains(id) && nodes.dom().contains(id) && w.holds(nodes[id]))
}

impl TupDb {
    /// The nodes of an ordered list that are there and satisfy a condition.
    fn pick(&self, ids: &Vec<TupId>, w: &Want) -> (r: Vec<TupId>)
        requires
            increasing(ids@),
        ensures
            r@ == ascending(picked(self@.tables.nodes, ids@.to_set(), *w)),
            lists(r@, picked(self@.tables.nodes, ids@.to_set(), *w)),
    {
        let mut out: Vec<TupId> = Vec::new();
        let ghost nodes = self@.tables.nodes;
        let mut i: usize = 0;
        assert(ids@.take(0).to_set() =~= Set::empty());
        while i < ids.len()
            invariant
                i <= ids.len(),
                nodes == self@.tables.nodes,
                increasing(ids@),
                increasing(out@),
                forall|j: int| 0 <= j < out@.len() ==> ids@.take(i as int).contains(
                    #[trigger] out@[j],
                ),
                forall|x: TupId| #[trigger]
                    out@.contains(x) <==> picked(
                        nodes,
                        ids@.take(i as int).to_set(),
                        *w,
                    ).contains(x),
            decreases ids.len() - i,
        {
            let id = ids[i];
            let mut keep = false;
            if let Some(row) = self.node_select_by_id(id) {
                keep = w.check(&row);
            }
            let ghost before = out@;
            let ghost pre = ids@.take(i as int);
            let ghost next = ids@.take(i + 1);
            if keep {
                out.push(id);
            }
            proof {
                lemma_take_to_set(ids@, i as int);
                assert forall|j: int| 0 <= j < out@.len() implies next.contains(
                    #[trigger] out@[j],
                ) by {
                    if j < before.len() {
                        assert(out@[j] == before[j]);
                        assert(pre.contains(before[j]));
                        let k = choose|k: int| 0 <= k < pre.len() && pre[k] == before[j];
                        assert(next[k] == out@[j]);
                    } else {
                        assert(next[i as int] == id);
                    }
                }
                assert forall|a: int, b: int| 0 <= a < b < out@.len() implies (
                #[trigger] out@[a]).0 < (#[trigger] out@[b]).0 by {
                    if b == before.len() {
                        assert(out@[a] == before[a]);
                        assert(pre.contains(before[a]));
                        let k = choose|k: int| 0 <= k < pre.len() && pre[k] == before[a];
                        assert(ids@[k].0 < ids@[i as int].0);
                    }
                }
                assert forall|x: TupId| #[trigger]
                    out@.contains(x) <==> picked(nodes, next.to_set(), *w).contains(x) by {
                    if before.contains(x) {
                        let k = choose|k: int| 0 <= k < before.len() && before[k] == x;
                        assert(out@[k] == x);
                    }
                    if out@.contains(x) {
                        let k = choose|k: int| 0 <= k < out@.len() && out@[k] == x;
                        if k < before.len() {
                            assert(before[k] == x);
                        }
                    }
                    if keep {
                        assert(out@[before.len() as int] == id);
                    }
                }
            }
            i += 1;
        }
        proof {
            assert(ids@.take(ids@.len() as int) =~= ids@);
            ascending_is_unique(out@, picked(nodes, ids@.to_set(), *w));
        }
        out
    }

    /// All nodes that satisfy a condition.
    fn pick_all(&self, w: &Want) -> (r: Vec<TupId>)
        ensures
            r@ == ascending(rows_where(self@.tables.nodes, |row: RowText| w.holds(row))),
            lists(r@, rows_where(self@.tables.nodes, |row: RowText| w.holds(row))),
    {
        let ids = self.node_ids();
        proof {
            let nodes = self@.tables.nodes;
            assert(picked(nodes, ids@.to_set(), *w) =~= rows_where(
                nodes,
                |row: RowText| w.holds(row),
            ));
        }
        self.pick(&ids, w)
    }

    /// The rows of nodes that are there.
    pub(crate) fn rows_of(&self, ids: &Vec<TupId>) -> (r: Vec<NodeRow>)
        requires
            forall|i: int|
                0 <= i < ids@.len() ==> self@.tables.nodes.dom().contains(#[trigger] ids@[i]),
        ensures
            row_texts(r@) == rows_at(self@.tables.nodes, ids@),
            forall|i: int| 0 <= i < r@.len() ==> (#[trigger] r@[i]).id == ids@[i],
    {
        let mut out: Vec<NodeRow> = Vec::new();
        let mut i: usize = 0;
        while i < ids.len()
            invariant
                i <= ids.len(),
                out@.len() == i,
                forall|j: int|
                    0 <= j < ids@.len() ==> self@.tables.nodes.dom().contains(#[trigger] ids@[j]),
                forall|j: int|
                    0 <= j < i ==> (#[trigger] out@[j])@ == self@.tables.nodes[ids@[j]]
                        && out@[j].id == ids@[j],
            decreases ids.len() - i,
        {
            assert(self@.tables.nodes.dom().contains(ids@[i as int]));
            out.push(self.row(ids[i]).clone());
            i += 1;
        }
        assert(row_texts(out@) =~= rows_at(self@.tables.nodes, ids@));
        out
    }

    /// All nodes in a directory.
    pub fn node_select_dir(&self, dir: TupId) -> (r: Vec<NodeRow>)
        ensures
            row_texts(r@) == rows_at(
                self@.tables.nodes,
                ascending(nodes_in(self@.tables.nodes, dir)),
            ),
            lists(ascending(nodes_in(self@.tables.nodes, dir)), nodes_in(self@.tables.nodes, dir)),
    {
        let w = Want { dir: Some(dir), srcid: None, node_type: None, or_type: None };
        let ids = self.pick_all(&w);
        proof {
            let nodes = self@.tables.nodes;
            assert(rows_where(nodes, |row: RowText| w.holds(row)) =~= nodes_in(nodes, dir));
            lemma_listed(ids@, nodes_in(nodes, dir));
        }
        self.rows_of(&ids)
    }

    /// All nodes of a type in a directory.
    pub fn dir_nodes_by_type(&self, dir: TupId, node_type: NodeType) -> (r: Vec<NodeRow>)
        ensures
            row_texts(r@) == rows_at(
                self@.tables.nodes,
                ascending(nodes_in_of(self@.tables.nodes, dir, node_type)),
            ),
            lists(
                ascending(nodes_in_of(self@.tables.nodes, dir, node_type)),
                nodes_in_of(self@.tables.nodes, dir, node_type),
            ),
    {
        let w = Want { dir: Some(dir), srcid: None, node_type: Some(node_type), or_type: None };
        let ids = self.pick_all(&w);
        proof {
            let nodes = self@.tables.nodes;
            assert(rows_where(nodes, |row: RowText| w.holds(row)) =~= nodes_in_of(
                nodes,
                dir,
                node_type,
            ));
            lemma_listed(ids@, nodes_in_of(nodes, dir, node_type));
        }
        self.rows_of(&ids)
    }

    /// All nodes of a type that come from a node.
    pub fn nodes_by_srcid(&self, srcid: TupId, node_type: NodeType) -> (r: Vec<NodeRow>)
        ensures
            row_texts(r@) == rows_at(
                self@.tables.nodes,
                ascending(nodes_from(self@.tables.nodes, srcid, node_type)),
            ),
            lists(
                ascending(nodes_from(self@.tables.nodes, srcid, node_type)),
                nodes_from(self@.tables.nodes, srcid, node_type),
            ),
    {
        let ids = self.ids_by_srcid(srcid, node_type);
        proof {
            lemma_listed(ids@, nodes_from(self@.tables.nodes, srcid, node_type));
        }
        self.rows_of(&ids)
    }

    fn ids_by_srcid(&self, srcid: TupId, node_type: NodeType) -> (r: Vec<TupId>)
        ensures
            r@ == ascending(nodes_from(self@.tables.nodes, srcid, node_type)),
            lists(r@, nodes_from(self@.tables.nodes, srcid, node_type)),
    {
        let w = Want {
            dir: None,
            srcid: Some(srcid.raw()),
            node_type: Some(node_type),
            or_type: None,
        };
        proof {
            let nodes = self@.tables.nodes;
            assert(rows_where(nodes, |row: RowText| w.holds(row)) =~= nodes_from(
                nodes,
                srcid,
                node_type,
            ));
        }
        self.pick_all(&w)
    }

    /// All nodes of a type, in increasing order.
    pub(crate) fn ids_by_type(&self, node_type: NodeType) -> (r: Vec<TupId>)
        ensures
            r@ == ascending(nodes_of(self@.tables.nodes, node_type)),
            lists(r@, nodes_of(self@.tables.nodes, node_type)),
    {
        let w = of_type(node_type);
        proof {
            let nodes = self@.tables.nodes;
            assert(rows_where(nodes, |row: RowText| w.holds(row)) =~= nodes_of(nodes, node_type));
        }
        self.pick_all(&w)
    }

    // -------------------------------------------- virtual directories

    /// The node of a virtual directory.
    pub fn virtual_dir_id(&self, name: &str) -> (r: Option<TupId>)
        ensures
            r == self@.tables.select(dot(), name@),
    {
        match self.node_select(dot_dt(), name) {
            Some(n) => Some(n.id),
            None => None,
        }
    }

    fn virtual_dt(&self, name: &str) -> (r: Result<TupId, DbError>)
        ensures
            match r {
                Ok(id) => virtual_node(self@.tables, name@) == Ok::<TupId, DbErrorText>(id),
                Err(e) => virtual_node(self@.tables, name@) == Err::<TupId, DbErrorText>(e@),
            },
    {
        match self.virtual_dir_id(name) {
            Some(id) => Ok(id),
            None => Err(DbError::Other(concat3("virtual '", name, "' directory not found"))),
        }
    }

    /// The virtual directory `$` of environment variables.
    pub fn env_dt(&self) -> (r: Result<TupId, DbError>)
        ensures
            match r {
                Ok(id) => virtual_node(self@.tables, "$"@) == Ok::<TupId, DbErrorText>(id),
                Err(e) => virtual_node(self@.tables, "$"@) == Err::<TupId, DbErrorText>(e@),
            },
    {
        self.virtual_dt("$")
    }

    /// The virtual directory `/` of files outside of the project.
    pub fn slash_dt(&self) -> (r: Result<TupId, DbError>)
        ensures
            match r {
                Ok(id) => virtual_node(self@.tables, "/"@) == Ok::<TupId, DbErrorText>(id),
                Err(e) => virtual_node(self@.tables, "/"@) == Err::<TupId, DbErrorText>(e@),
            },
    {
        self.virtual_dt("/")
    }

    /// The virtual directory `^` of exclusions.
    pub fn exclusion_dt(&self) -> (r: Result<TupId, DbError>)
        ensures
            match r {
                Ok(id) => virtual_node(self@.tables, "^"@) == Ok::<TupId, DbErrorText>(id),
                Err(e) => virtual_node(self@.tables, "^"@) == Err::<TupId, DbErrorText>(e@),
            },
    {
        self.virtual_dt("^")
    }

    // -------------------------------------------- links

    /// The inputs of a node: those of sticky links, then those of normal links
    /// that are not among them.
    pub fn get_input_ids(&self, to_id: TupId) -> (r: Vec<TupId>)
        ensures
            r@ == input_ids(self@.tables, to_id),
    {
        let sticky = self.get_sticky_inputs(to_id);
        let normal = self.get_normal_inputs(to_id);
        let ghost seen = ins(self@.tables.sticky, to_id);
        let mut out: Vec<TupId> = Vec::new();
        let mut k: usize = 0;
        while k < sticky.len()
            invariant
                k <= sticky.len(),
                out@ == sticky@.take(k as int),
            decreases sticky.len() - k,
        {
            out.push(sticky[k]);
            k += 1;
        }
        let mut i: usize = 0;
        proof {
            assert(sticky@.take(sticky@.len() as int) =~= sticky@);
            assert(out@ =~= sticky@ + ids_without(normal@.take(0), seen));
        }
        while i < normal.len()
            invariant
                i <= normal.len(),
                lists(sticky@, seen),
                lists(normal@, ins(self@.tables.normal, to_id)),
                out@ == sticky@ + ids_without(normal@.take(i as int), seen),
            decreases normal.len() - i,
        {
            let id = normal[i];
            let known = has_id(&out, id);
            proof {
                let pre = normal@.take(i as int);
                let next = normal@.take(i + 1);
                assert(next.drop_last() =~= pre);
                assert(known == seen.contains(id)) by {
                    lemma_ids_without_from(pre, seen);
                    if known && !seen.contains(id) {
                        let j = choose|j: int| 0 <= j < out@.len() && out@[j] == id;
                        if j < sticky@.len() {
                            assert(sticky@.contains(sticky@[j]));
                        } else {
                            let rest = ids_without(pre, seen);
                            assert(rest.contains(rest[j - sticky@.len()]));
                            let m = choose|m: int| 0 <= m < pre.len() && pre[m] == id;
                            assert(normal@[m].0 < normal@[i as int].0);
                        }
                    }
                    if seen.contains(id) {
                        assert(sticky@.contains(id));
                        let j = choose|j: int| 0 <= j < sticky@.len() && sticky@[j] == id;
                        assert(out@[j] == id);
                    }
                }
            }
            let ghost before = out@;
            if !known {
                out.push(id);
                proof {
                    let pre = normal@.take(i as int);
                    assert(out@ =~= sticky@ + ids_without(pre, seen).push(id));
                }
            }
            i += 1;
        }
        assert(normal@.take(normal@.len() as int) =~= normal@);
        out
    }

    /// The first node from which a normal link leads to a node. An output has
    /// one: the command that produces it.
    pub fn get_incoming_link(&self, id: TupId) -> (r: Option<TupId>)
        ensures
            r == first_of(ins(self@.tables.normal, id)),
            r is None <==> ins(self@.tables.normal, id) == Set::<TupId>::empty(),
            r is Some ==> ins(self@.tables.normal, id).contains(r->0),
    {
        let ids = self.get_normal_inputs(id);
        proof {
            lemma_first(ids@, ins(self@.tables.normal, id));
        }
        if ids.len() > 0 {
            Some(ids[0])
        } else {
            None
        }
    }

    /// The outputs of a command.
    pub fn get_cmd_outputs(&self, cmdid: TupId) -> (r: Vec<NodeRow>)
        ensures
            row_texts(r@) == rows_at(
                self@.tables.nodes,
                ascending(self@.tables.known(outs(self@.tables.normal, cmdid))),
            ),
            lists(
                ascending(self@.tables.known(outs(self@.tables.normal, cmdid))),
                self@.tables.known(outs(self@.tables.normal, cmdid)),
            ),
    {
        let ids = self.get_normal_outputs(cmdid);
        self.known_rows(&ids)
    }

    /// The rows of those nodes of an ordered list that are there.
    fn known_rows(&self, ids: &Vec<TupId>) -> (r: Vec<NodeRow>)
        requires
            increasing(ids@),
        ensures
            forall|s: Set<TupId>| #[trigger]
                lists(ids@, s) ==> {
                    &&& row_texts(r@) == rows_at(
                        self@.tables.nodes,
                        ascending(self@.tables.known(s)),
                    )
                    &&& lists(ascending(self@.tables.known(s)), self@.tables.known(s))
                },
    {
        let w = any();
        let out = self.pick(ids, &w);
        proof {
            let t = self@.tables;
            assert forall|s: Set<TupId>| #[trigger] lists(ids@, s) implies picked(
                t.nodes,
                ids@.to_set(),
                w,
            ) == t.known(s) by {
                assert(picked(t.nodes, ids@.to_set(), w) =~= t.known(s));
            }
            assert forall|i: int| 0 <= i < out@.len() implies t.nodes.dom().contains(
                #[trigger] out@[i],
            ) by {
                assert(out@.contains(out@[i]));
            }
        }
        self.rows_of(&out)
    }

    /// The inputs of a command: those of normal links and those of sticky
    /// links.
    pub fn get_cmd_inputs(&self, cmdid: TupId) -> (r: (Vec<NodeRow>, Vec<NodeRow>))
        ensures
            row_texts(r.0@) == rows_at(
                self@.tables.nodes,
                ascending(self@.tables.known(ins(self@.tables.normal, cmdid))),
            ),
            row_texts(r.1@) == rows_at(
                self@.tables.nodes,
                ascending(self@.tables.known(ins(self@.tables.sticky, cmdid))),
            ),
    {
        let normal = self.get_normal_inputs(cmdid);
        let sticky = self.get_sticky_inputs(cmdid);
        (self.known_rows(&normal), self.known_rows(&sticky))
    }

    /// The first group that a normal link leads to from a command.
    pub fn get_output_group(&self, cmdid: TupId) -> (r: Option<TupId>)
        ensures
            r == first_of(
                self@.tables.known_of(outs(self@.tables.normal, cmdid), NodeType::Group),
            ),
            r is None <==> self@.tables.known_of(
                outs(self@.tables.normal, cmdid),
                NodeType::Group,
            ) == Set::<TupId>::empty(),
    {
        let linked = self.get_normal_outputs(cmdid);
        let ids = self.pick_known_of(&linked, NodeType::Group);
        proof {
            let t = self@.tables;
            assert(linked@.to_set() =~= outs(t.normal, cmdid));
            lemma_first(ids@, t.known_of(outs(t.normal, cmdid), NodeType::Group));
        }
        if ids.len() > 0 {
            Some(ids[0])
        } else {
            None
        }
    }

    pub(crate) fn pick_known_of(&self, ids: &Vec<TupId>, node_type: NodeType) -> (r: Vec<TupId>)
        requires
            increasing(ids@),
        ensures
            lists(r@, self@.tables.known_of(ids@.to_set(), node_type)),
    {
        let w = of_type(node_type);
        proof {
            let t = self@.tables;
            assert(picked(t.nodes, ids@.to_set(), w) =~= t.known_of(ids@.to_set(), node_type));
        }
        self.pick(ids, &w)
    }

    /// Whether a directory holds nothing but what commands make: no ordinary
    /// file, and a command or a generated file.
    pub fn is_generated_dir(&self, dir: TupId) -> (r: bool)
        ensures
            r == {
                &&& nodes_in_of(self@.tables.nodes, dir, NodeType::File) == Set::<TupId>::empty()
                &&& !(nodes_in_of(self@.tables.nodes, dir, NodeType::Generated).union(
                    nodes_in_of(self@.tables.nodes, dir, NodeType::Cmd),
                ) == Set::<TupId>::empty())
            },
    {
        let files = self.dir_nodes_by_type(dir, NodeType::File);
        let generated = self.dir_nodes_by_type(dir, NodeType::Generated);
        let commands = self.dir_nodes_by_type(dir, NodeType::Cmd);
        proof {
            let nodes = self@.tables.nodes;
            let f = nodes_in_of(nodes, dir, NodeType::File);
            let g = nodes_in_of(nodes, dir, NodeType::Generated);
            let c = nodes_in_of(nodes, dir, NodeType::Cmd);
            lemma_first(ascending(f), f);
            lemma_first(ascending(g), g);
            lemma_first(ascending(c), c);
            assert(row_texts(files@).len() == ascending(f).len());
            assert(row_texts(generated@).len() == ascending(g).len());
            assert(row_texts(commands@).len() == ascending(c).len());
            if g == Set::<TupId>::empty() && c == Set::<TupId>::empty() {
                assert(g.union(c) =~= Set::empty());
            }
            if g.union(c) == Set::<TupId>::empty() {
                assert(g =~= Set::empty()) by {
                    assert forall|x: TupId| !g.contains(x) by {
                        assert(!g.union(c).contains(x));
                    }
                }
                assert(c =~= Set::empty()) by {
                    assert forall|x: TupId| !c.contains(x) by {
                        assert(!g.union(c).contains(x));
                    }
                }
            }
        }
        files.len() == 0 && (generated.len() > 0 || commands.len() > 0)
    }

    // -------------------------------------------- what becomes pending

    /// Marks the commands that produce an output as modified, and gives the
    /// number of those that were not marked.
    pub fn modify_cmds_by_output(&mut self, output_id: TupId) -> (r: u64)
        ensures
            final(self)@ == old(self)@.with(old(self)@.tables.modify_producers(output_id)),
            r == ins(old(self)@.tables.normal, output_id).difference(
                (old(self)@.tables.flags)(TupFlags::Modify),
            ).len(),
    {
        let ids = self.get_normal_inputs(output_id);
        proof {
            assert(ids@.to_set() =~= ins(self@.tables.normal, output_id));
            lemma_increasing_no_duplicates(ids@);
        }
        self.flag_add_all(&ids, TupFlags::Modify)
    }

    /// Marks the commands and groups that use an input as modified.
    pub fn modify_cmds_by_input(&mut self, input_id: TupId)
        ensures
            final(self)@ == old(self)@.with(old(self)@.tables.modify_users(input_id)),
    {
        let ghost t = self@.tables;
        let w = of_types(NodeType::Cmd, NodeType::Group);
        let linked = self.get_normal_outputs(input_id);
        let normal = self.pick(&linked, &w);
        let linked_sticky = self.get_sticky_outputs(input_id);
        let sticky = self.pick(&linked_sticky, &w);
        let _ = self.flag_add_all(&normal, TupFlags::Modify);
        let _ = self.flag_add_all(&sticky, TupFlags::Modify);
        proof {
            assert(linked@.to_set() =~= outs(t.normal, input_id));
            assert(linked_sticky@.to_set() =~= outs(t.sticky, input_id));
            lemma_flag_set_twice(t, normal@.to_set(), sticky@.to_set(), TupFlags::Modify);
            assert(normal@.to_set().union(sticky@.to_set()) =~= t.users(input_id));
        }
    }

    /// Marks the directories that depend on a node as to be parsed.
    pub fn set_dependent_dir_flags(&mut self, id: TupId)
        ensures
            final(self)@ == old(self)@.with(old(self)@.tables.flag_dependent_dirs(id)),
    {
        let linked = self.get_normal_outputs(id);
        let dirs = self.pick_known_of(&linked, NodeType::Dir);
        proof {
            let t = self@.tables;
            assert(linked@.to_set() =~= outs(t.normal, id));
            assert(dirs@.to_set() =~= t.known_of(outs(t.normal, id), NodeType::Dir));
        }
        let _ = self.flag_add_all(&dirs, TupFlags::Create);
    }

    /// Marks the configurations of the directories that depend on a node as to
    /// be read.
    pub fn set_dependent_config_flags(&mut self, id: TupId)
        ensures
            final(self)@ == old(self)@.with(old(self)@.tables.flag_dependent_configs(id)),
    {
        let linked = self.get_sticky_outputs(id);
        let dirs = self.pick_known_of(&linked, NodeType::Dir);
        proof {
            let t = self@.tables;
            assert(linked@.to_set() =~= outs(t.sticky, id));
            assert(dirs@.to_set() =~= t.known_of(outs(t.sticky, id), NodeType::Dir));
        }
        let _ = self.flag_add_all(&dirs, TupFlags::Config);
    }

    /// Marks all that depends on a node.
    pub fn set_dependent_flags(&mut self, id: TupId)
        ensures
            final(self)@ == old(self)@.with(old(self)@.tables.flag_dependents(id)),
    {
        self.set_dependent_dir_flags(id);
        self.set_dependent_config_flags(id);
    }

    /// Marks the directories that come from a directory as to be parsed.
    pub fn set_srcid_dir_flags(&mut self, srcid: TupId)
        ensures
            final(self)@ == old(self)@.with(
                old(self)@.tables.flag_set(
                    nodes_from(old(self)@.tables.nodes, srcid, NodeType::Dir),
                    TupFlags::Create,
                ),
            ),
    {
        let ids = self.ids_by_srcid(srcid, NodeType::Dir);
        proof {
            assert(ids@.to_set() =~= nodes_from(self@.tables.nodes, srcid, NodeType::Dir));
        }
        let _ = self.flag_add_all(&ids, TupFlags::Create);
    }

    /// Marks all commands as to be run.
    pub fn rebuild_all(&mut self)
        ensures
            final(self)@ == old(self)@.with(
                old(self)@.tables.flag_set(
                    nodes_of(old(self)@.tables.nodes, NodeType::Cmd),
                    TupFlags::Modify,
                ),
            ),
    {
        let ids = self.ids_by_type(NodeType::Cmd);
        proof {
            assert(ids@.to_set() =~= nodes_of(self@.tables.nodes, NodeType::Cmd));
        }
        let _ = self.flag_add_all(&ids, TupFlags::Modify);
    }

    /// Marks all directories as to be parsed.
    pub fn reparse_all(&mut self)
        ensures
            final(self)@ == old(self)@.with(
                old(self)@.tables.flag_set(
                    nodes_of(old(self)@.tables.nodes, NodeType::Dir),
                    TupFlags::Create,
                ),
            ),
    {
        let ids = self.ids_by_type(NodeType::Dir);
        proof {
            assert(ids@.to_set() =~= nodes_of(self@.tables.nodes, NodeType::Dir));
        }
        let _ = self.flag_add_all(&ids, TupFlags::Create);
    }
}

/// The node of a virtual directory, or the error where it is missing.
pub open spec fn virtual_node(t: TablesText, name: Seq<char>) -> Result<TupId, DbErrorText> {
    match t.select(dot(), name) {
        Some(id) => Ok(id),
        None => Err(DbErrorText::Other("virtual '"@ + name + "' directory not found"@)),
    }
}

/// The inputs of a node, those of sticky links first.
pub open spec fn input_ids(t: TablesText, to: TupId) -> Seq<TupId> {
    ascending(ins(t.sticky, to)) + ids_without(ascending(ins(t.normal, to)), ins(t.sticky, to))
}

/// The least node of a set.
pub open spec fn first_of(s: Set<TupId>) -> Option<TupId> {
    if s == Set::<TupId>::empty() {
        None
    } else {
        Some(ascending(s)[0])
    }
}

pub proof fn lemma_first(ids: Seq<TupId>, s: Set<TupId>)
    requires
        lists(ids, s),
    ensures
        ids == ascending(s),
        ids.len() == 0 <==> s == Set::<TupId>::empty(),
        first_of(s) == if ids.len() > 0 {
            Some(ids[0])
        } else {
            None::<TupId>
        },
        ids.len() > 0 ==> s.contains(ids[0]),
{
    ascending_is_unique(ids, s);
    if ids.len() > 0 {
        assert(ids.contains(ids[0]));
    } else {
        assert forall|x: TupId| !s.contains(x) by {
            if s.contains(x) {
                assert(ids.contains(x));
            }
        }
        assert(s =~= Set::empty());
    }
}

proof fn lemma_listed(ids: Seq<TupId>, s: Set<TupId>)
    requires
        lists(ids, s),
    ensures
        ids == ascending(s),
        forall|i: int| 0 <= i < ids.len() ==> s.contains(#[trigger] ids[i]),
{
    ascending_is_unique(ids, s);
    assert forall|i: int| 0 <= i < ids.len() implies s.contains(#[trigger] ids[i]) by {
        assert(ids.contains(ids[i]));
    }
}

proof fn lemma_ids_without_from(s: Seq<TupId>, removed: Set<TupId>)
    ensures
        forall|x: TupId| #[trigger] ids_without(s, removed).contains(x) ==> s.contains(x),
    decreases s.len(),
{
    if s.len() > 0 {
        let t = s.drop_last();
        lemma_ids_without_from(t, removed);
        assert forall|x: TupId| #[trigger]
            ids_without(s, removed).contains(x) implies s.contains(x) by {
            let before = ids_without(t, removed);
            if before.contains(x) {
                assert(t.contains(x));
                let k = choose|k: int| 0 <= k < t.len() && t[k] == x;
                assert(s[k] == x);
            } else {
                let k = choose|k: int|
                    0 <= k < ids_without(s, removed).len() && ids_without(s, removed)[k] == x;
                if k < before.len() {
                    assert(before[k] == x);
                }
                assert(s[s.len() - 1] == x);
            }
        }
    }
}

/// To mark one set and then another is to mark both.
pub proof fn lemma_flag_set_twice(t: TablesText, a: Set<TupId>, b: Set<TupId>, f: TupFlags)
    ensures
        t.flag_set(a, f).flag_set(b, f) == t.flag_set(a.union(b), f),
{
    let x = t.flag_set(a, f).flag_set(b, f);
    let y = t.flag_set(a.union(b), f);
    assert((t.flags)(f).union(a).union(b) =~= (t.flags)(f).union(a.union(b)));
    assert(x.flags =~= y.flags);
}

} // verus!
