//! Nodes that stand for something that is not there, and when they go.
use vstd::prelude::*;

use crate::db::tables::{ins, outs, TablesText, TupDb};
use crate::ids::lists;
use crate::text::same;
use crate::types::{ids_are_finite, NodeType, TupId};

verus! {

/// The nodes that go when nothing needs them.
pub open spec fn is_placeholder(t: NodeType) -> bool {
    t == NodeType::GhostNode || t == NodeType::Group || t == NodeType::GeneratedDir
}

impl TablesText {
    /// Whether a node is in a node, or comes from it.
    pub open spec fn is_referenced(self, id: TupId) -> bool {
        exists|x: TupId| #[trigger]
            self.nodes.dom().contains(x) && (self.nodes[x].dir == id || self.nodes[x].srcid
                == id.0)
    }

    /// Whether nothing needs a node of a type: no node refers to it, and no
    /// normal link leads from it. For a group, moreover, no normal link leads to
    /// it, and no sticky one from it.
    pub open spec fn is_free_as(self, id: TupId, node_type: NodeType) -> bool {
        &&& !self.is_referenced(id)
        &&& outs(self.normal, id) == Set::<TupId>::empty()
        &&& node_type == NodeType::Group ==> {
            &&& ins(self.normal, id) == Set::<TupId>::empty()
            &&& outs(self.sticky, id) == Set::<TupId>::empty()
        }
    }

    /// Whether nothing needs a node.
    pub open spec fn is_free(self, id: TupId) -> bool {
        self.is_free_as(id, self.nodes[id].node_type)
    }

    /// Whether a node is to go. One named `tup.config` never does.
    pub open spec fn is_reclaimable(self, id: TupId) -> bool {
        &&& self.nodes.dom().contains(id)
        &&& is_placeholder(self.nodes[id].node_type)
        &&& self.nodes[id].name != "tup.config"@
        &&& self.is_free(id)
    }

    /// One pass over candidates: what is left, the directories of those that
    /// went, and how many went.
    pub open spec fn reclaim_pass(self, ids: Seq<TupId>) -> (TablesText, Seq<TupId>, nat)
        decreases ids.len(),
    {
        if ids.len() == 0 {
            (self, Seq::empty(), 0)
        } else {
            let (t, dirs, count) = self.reclaim_pass(ids.drop_last());
            let id = ids.last();
            if t.is_reclaimable(id) {
                (
                    t.erase(id),
                    if t.nodes[id].dir != TupId(0) {
                        dirs.push(t.nodes[id].dir)
                    } else {
                        dirs
                    },
                    count + 1,
                )
            } else {
                (t, dirs, count)
            }
        }
    }

    /// Passes over candidates, and then over the directories of those that
    /// went, until nothing goes any more: what is left, the candidates of the
    /// last pass, and how many went.
    pub open spec fn reclaim(self, ids: Seq<TupId>) -> (TablesText, Seq<TupId>, nat)
        decreases self.nodes.dom().len(),
    {
        let (t, dirs, count) = self.reclaim_pass(ids);
        proof {
            pass_removes_placeholders(self, ids);
        }
        if count == 0 || dirs.len() == 0 {
            (t, ids, count)
        } else {
            let (u, last, more) = t.reclaim(dirs);
            (u, last, count + more)
        }
    }

    /// A node goes, or becomes a ghost where another node refers to it.
    pub open spec fn delete_or_ghost(self, id: TupId) -> TablesText {
        if self.is_referenced(id) {
            self.set_type(id, NodeType::GhostNode).set_srcid(id, -1i64)
        } else {
            self.erase(id)
        }
    }
}

/// A pass removes only placeholders, none of them named `tup.config`, and as
/// many as it says. The other nodes stay as they are.
pub proof fn pass_removes_placeholders(t: TablesText, ids: Seq<TupId>)
    ensures
        t.reclaim_pass(ids).0.nodes.dom().len() + t.reclaim_pass(ids).2 == t.nodes.dom().len(),
        only_placeholders_went(t, t.reclaim_pass(ids).0),
    decreases ids.len(),
{
    ids_are_finite(t.nodes.dom());
    if ids.len() > 0 {
        pass_removes_placeholders(t, ids.drop_last());
        let mid = t.reclaim_pass(ids.drop_last()).0;
        let id = ids.last();
        if mid.is_reclaimable(id) {
            ids_are_finite(mid.nodes.dom());
            assert(mid.erase(id).nodes.dom() =~= mid.nodes.dom().remove(id));
            assert forall|x: TupId| #[trigger] t.nodes.dom().contains(x) implies {
                ||| mid.erase(id).nodes.dom().contains(x) && mid.erase(id).nodes[x] == t.nodes[x]
                ||| !mid.erase(id).nodes.dom().contains(x) && is_placeholder(t.nodes[x].node_type)
                    && t.nodes[x].name != "tup.config"@
            } by {
                assert(mid.nodes.dom().contains(x) ==> mid.nodes[x] == t.nodes[x]);
            }
            assert forall|x: TupId| #[trigger]
                mid.erase(id).nodes.dom().contains(x) implies t.nodes.dom().contains(x) by {
                assert(mid.nodes.dom().contains(x));
            }
        }
    }
}

/// Whether each node stayed as it was, or went and was a placeholder that is
/// not named `tup.config`.
pub open spec fn only_placeholders_went(before: TablesText, after: TablesText) -> bool {
    &&& forall|x: TupId| #[trigger] before.nodes.dom().contains(x) ==> {
        ||| after.nodes.dom().contains(x) && after.nodes[x] == before.nodes[x]
        ||| !after.nodes.dom().contains(x) && is_placeholder(before.nodes[x].node_type)
            && before.nodes[x].name != "tup.config"@
    }
    &&& forall|x: TupId| #[trigger]
        after.nodes.dom().contains(x) ==> before.nodes.dom().contains(x)
}

/// Reclaiming removes only placeholders, none of them named `tup.config`, and
/// as many as it says. The other nodes stay as they are.
pub proof fn reclaim_removes_placeholders(t: TablesText, ids: Seq<TupId>)
    ensures
        t.reclaim(ids).0.nodes.dom().len() + t.reclaim(ids).2 == t.nodes.dom().len(),
        only_placeholders_went(t, t.reclaim(ids).0),
    decreases t.nodes.dom().len(),
{
    pass_removes_placeholders(t, ids);
    let (mid, dirs, count) = t.reclaim_pass(ids);
    if count == 0 || dirs.len() == 0 {
    } else {
        reclaim_removes_placeholders(mid, dirs);
        let after = mid.reclaim(dirs).0;
        assert forall|x: TupId| #[trigger] t.nodes.dom().contains(x) implies {
            ||| after.nodes.dom().contains(x) && after.nodes[x] == t.nodes[x]
            ||| !after.nodes.dom().contains(x) && is_placeholder(t.nodes[x].node_type)
                && t.nodes[x].name != "tup.config"@
        } by {
            if mid.nodes.dom().contains(x) {
                assert(mid.nodes[x] == t.nodes[x]);
            } else {
                assert(after.nodes.dom().contains(x) ==> mid.nodes.dom().contains(x));
            }
        }
        assert forall|x: TupId| #[trigger] after.nodes.dom().contains(x) implies t.nodes.dom().contains(
            x,
        ) by {
            assert(mid.nodes.dom().contains(x));
        }
    }
}

/// Nothing goes from which a normal link leads, nor a directory that is not
/// empty.
pub proof fn needed_nodes_stay(t: TablesText, id: TupId)
    requires
        t.is_referenced(id) || outs(t.normal, id) != Set::<TupId>::empty(),
    ensures
        t.reclaim(seq![id]).0 == t,
{
    let ids = seq![id];
    assert(ids.drop_last() =~= Seq::empty());
    assert(t.reclaim_pass(ids.drop_last()) == (t, Seq::<TupId>::empty(), 0nat));
}

impl TupDb {
    fn has_refs(&self, id: TupId) -> (r: bool)
        ensures
            r == self@.tables.is_referenced(id),
    {
        let ids = self.node_ids();
        let ghost nodes = self@.tables.nodes;
        let mut i: usize = 0;
        while i < ids.len()
            invariant
                i <= ids.len(),
                nodes == self@.tables.nodes,
                lists(ids@, nodes.dom()),
                forall|j: int|
                    0 <= j < i ==> nodes[#[trigger] ids@[j]].dir != id && nodes[ids@[j]].srcid
                        != id.0,
            decreases ids.len() - i,
        {
            assert(ids@.contains(ids@[i as int]));
            let row = self.row(ids[i]);
            if row.dir == id || row.srcid == id.raw() {
                assert(nodes.dom().contains(ids@[i as int]));
                return true;
            }
            i += 1;
        }
        proof {
            if self@.tables.is_referenced(id) {
                let x = choose|x: TupId| #[trigger]
                    nodes.dom().contains(x) && (nodes[x].dir == id || nodes[x].srcid == id.0);
                assert(ids@.contains(x));
                let j = choose|j: int| 0 <= j < ids@.len() && ids@[j] == x;
                assert(nodes[ids@[j]].dir != id);
            }
        }
        false
    }

    /// Whether nothing needs a node of a type.
    pub fn is_ghost_reclaimable(&self, id: TupId, node_type: NodeType) -> (r: bool)
        ensures
            r == self@.tables.is_free_as(id, node_type),
    {
        if self.has_refs(id) {
            return false;
        }
        let links = self.get_normal_outputs(id);
        proof {
            crate::db::links::lemma_first(links@, outs(self@.tables.normal, id));
        }
        if links.len() > 0 {
            return false;
        }
        if node_type == NodeType::Group {
            let inputs = self.get_normal_inputs(id);
            let sticky = self.get_sticky_outputs(id);
            proof {
                crate::db::links::lemma_first(inputs@, ins(self@.tables.normal, id));
                crate::db::links::lemma_first(sticky@, outs(self@.tables.sticky, id));
            }
            if inputs.len() > 0 || sticky.len() > 0 {
                return false;
            }
        }
        true
    }

    /// Removes a node, its links and all work that is pending for it.
    pub(crate) fn delete_ghost_node(&mut self, id: TupId)
        ensures
            final(self)@ == old(self)@.with(old(self)@.tables.erase(id)),
    {
        self.flags_remove_all(id);
        self.links_delete(id);
        let _ = self.node_delete(id);
    }

    /// Removes those of some candidates that nothing needs, and then the
    /// directories that nothing needs any more, and gives the number of nodes
    /// that went. The candidates of the last pass are left in the list.
    pub fn reclaim_ghosts(&mut self, ghost_candidates: &mut Vec<TupId>) -> (r: usize)
        ensures
            ({
                let (t, last, count) = old(self)@.tables.reclaim(old(ghost_candidates)@);
                &&& final(self)@ == old(self)@.with(t)
                &&& final(ghost_candidates)@ == last
                &&& r == count
            }),
    {
        let ghost start = self@.tables;
        let ghost first = ghost_candidates@;
        let ghost target = start.reclaim(first);
        let n = self.node_count();
        let mut total: usize = 0;
        proof {
            reclaim_removes_placeholders(start, first);
        }
        loop
            invariant
                self@.saved == old(self)@.saved,
                target == old(self)@.tables.reclaim(old(ghost_candidates)@),
                target.2 <= n,
                target.0 == self@.tables.reclaim(ghost_candidates@).0,
                target.1 == self@.tables.reclaim(ghost_candidates@).1,
                target.2 == total + self@.tables.reclaim(ghost_candidates@).2,
            decreases self@.tables.nodes.dom().len(),
        {
            let ghost t = self@.tables;
            let ghost ids = ghost_candidates@;
            let ghost pass = t.reclaim_pass(ids);
            proof {
                pass_removes_placeholders(t, ids);
                reclaim_removes_placeholders(pass.0, pass.1);
            }
            let (next, count) = self.reclaim_once(ghost_candidates);
            total = total + count;
            if count == 0 || next.len() == 0 {
                return total;
            }
            *ghost_candidates = next;
        }
    }

    fn reclaim_once(&mut self, ids: &Vec<TupId>) -> (r: (Vec<TupId>, usize))
        ensures
            ({
                let (t, dirs, count) = old(self)@.tables.reclaim_pass(ids@);
                &&& final(self)@ == old(self)@.with(t)
                &&& r.0@ == dirs
                &&& r.1 == count
            }),
    {
        let ghost t = self@.tables;
        let mut next: Vec<TupId> = Vec::new();
        let mut count: usize = 0;
        let mut i: usize = 0;
        assert(ids@.take(0) =~= Seq::empty());
        assert(next@ =~= Seq::empty());
        while i < ids.len()
            invariant
                i <= ids.len(),
                t == old(self)@.tables,
                count <= i,
                self@ == old(self)@.with(t.reclaim_pass(ids@.take(i as int)).0),
                next@ == t.reclaim_pass(ids@.take(i as int)).1,
                count == t.reclaim_pass(ids@.take(i as int)).2,
            decreases ids.len() - i,
        {
            let id = ids[i];
            proof {
                assert(ids@.take(i + 1).drop_last() =~= ids@.take(i as int));
                assert(ids@.take(i + 1).last() == id);
            }
            if let Some(row) = self.node_select_by_id(id) {
                let kind = match row.node_type {
                    NodeType::GhostNode | NodeType::Group | NodeType::GeneratedDir => true,
                    _ => false,
                };
                if kind && !same(row.name.as_str(), "tup.config") && self.is_ghost_reclaimable(
                    id,
                    row.node_type,
                ) {
                    if row.dir != TupId::new(0) {
                        next.push(row.dir);
                    }
                    self.delete_ghost_node(id);
                    count = count + 1;
                }
            }
            i += 1;
        }
        assert(ids@.take(ids@.len() as int) =~= ids@);
        (next, count)
    }

    /// Removes a node, or makes it a ghost where another node refers to it.
    /// Says whether it was removed.
    pub fn delete_or_ghost(&mut self, id: TupId) -> (r: bool)
        ensures
            final(self)@ == old(self)@.with(old(self)@.tables.delete_or_ghost(id)),
            r == !old(self)@.tables.is_referenced(id),
    {
        if self.has_refs(id) {
            self.node_set_type(id, NodeType::GhostNode);
            self.node_set_srcid(id, -1);
            false
        } else {
            self.delete_ghost_node(id);
            true
        }
    }
}

} // verus!
