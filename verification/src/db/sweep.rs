//! What is no longer on disk goes from the database.
use vstd::prelude::*;

use crate::db::entry::EntryCache;
use crate::db::nodes::{world, World};
use crate::db::rows::{rows_where, unique_names, RowText};
use crate::db::tables::{TupDb, TupFlags};
use crate::ids::{
    ascending, ascending_is_unique, ascending_lists, increasing, lemma_increasing_no_duplicates,
    lists,
};
use crate::ordmap::OrdMap;
use crate::types::{ids_are_finite, NodeType, TupId};

verus! {

// ------------------------------------------------ the nodes below a node

/// Whether some steps up from a node lead to another.
pub open spec fn steps_up(nodes: Map<TupId, RowText>, x: TupId, to: TupId, k: nat) -> bool
    decreases k,
{
    if k == 0 {
        x == to
    } else {
        nodes.dom().contains(x) && steps_up(nodes, nodes[x].dir, to, (k - 1) as nat)
    }
}

/// Whether a node is another or below it.
pub open spec fn at_or_below(nodes: Map<TupId, RowText>, x: TupId, top: TupId) -> bool {
    exists|k: nat| steps_up(nodes, x, top, k)
}

/// Whether a node is one of a list or below one of them.
pub open spec fn below_some(nodes: Map<TupId, RowText>, x: TupId, tops: Seq<TupId>) -> bool {
    exists|top: TupId| tops.contains(top) && #[trigger] at_or_below(nodes, x, top)
}

/// The files among some nodes and below them.
pub open spec fn files_below(nodes: Map<TupId, RowText>, tops: Seq<TupId>) -> Set<TupId> {
    rows_where(nodes, |r: RowText| r.node_type == NodeType::File && below_some(nodes, r.id, tops))
}

// ------------------------------------------------ files that go

impl World {
    /// A file goes: what uses it is to run, what depends on it and its directory
    /// are to be parsed. It becomes a ghost where another node refers to it.
    pub open spec fn remove_file(self, id: TupId) -> World {
        let t = self.tables.flag(id, TupFlags::Modify).modify_users(id).flag_dependents(id).flag(
            self.tables.nodes[id].dir,
            TupFlags::Create,
        );
        World {
            tables: t.delete_or_ghost(id),
            cache: if t.is_referenced(id) {
                self.cache.set_type(id, NodeType::GhostNode)
            } else {
                self.cache.remove(id)
            },
        }
    }

    /// Files go, one after the other.
    pub open spec fn remove_files(self, ids: Seq<TupId>) -> World
        decreases ids.len(),
    {
        if ids.len() == 0 {
            self
        } else {
            self.remove_file(ids[0]).remove_files(ids.drop_first())
        }
    }

    /// The files among some nodes and below them go.
    pub open spec fn sweep(self, tops: Seq<TupId>) -> World {
        self.remove_files(ascending(files_below(self.tables.nodes, tops)))
    }
}

/// What is closed downwards and holds some nodes holds all that is below them.
proof fn lemma_closed(
    nodes: Map<TupId, RowText>,
    s: Set<TupId>,
    x: TupId,
    top: TupId,
    k: nat,
)
    requires
        s.contains(top),
        forall|y: TupId| #[trigger]
            nodes.dom().contains(y) && s.contains(nodes[y].dir) ==> s.contains(y),
        steps_up(nodes, x, top, k),
    ensures
        s.contains(x),
    decreases k,
{
    if k > 0 {
        lemma_closed(nodes, s, nodes[x].dir, top, (k - 1) as nat);
    }
}

proof fn lemma_child_of_some(nodes: Map<TupId, RowText>, x: TupId, tops: Seq<TupId>)
    requires
        nodes.dom().contains(x),
        below_some(nodes, nodes[x].dir, tops),
    ensures
        below_some(nodes, x, tops),
{
    let top = choose|top: TupId|
        tops.contains(top) && #[trigger] at_or_below(nodes, nodes[x].dir, top);
    let k = choose|k: nat| steps_up(nodes, nodes[x].dir, top, k);
    assert(steps_up(nodes, x, top, k + 1));
    assert(at_or_below(nodes, x, top));
}

/// One pass over the nodes: those whose directories are marked are marked. Says
/// whether a node was marked.
fn mark_pass(db: &TupDb, tops: &Vec<TupId>, marked: &mut OrdMap<TupId, ()>) -> (r: bool)
    requires
        forall|x: TupId| #[trigger]
            old(marked)@.dom().contains(x) ==> below_some(db@.tables.nodes, x, tops@),
    ensures
        forall|x: TupId| #[trigger]
            final(marked)@.dom().contains(x) ==> below_some(db@.tables.nodes, x, tops@),
        old(marked)@.dom().subset_of(final(marked)@.dom()),
        !r ==> final(marked)@.dom() == old(marked)@.dom() && forall|y: TupId| #[trigger]
            db@.tables.nodes.dom().contains(y) && old(marked)@.dom().contains(
                db@.tables.nodes[y].dir,
            ) ==> old(marked)@.dom().contains(y),
        r ==> exists|y: TupId| #[trigger]
            db@.tables.nodes.dom().contains(y) && final(marked)@.dom().contains(y)
                && !old(marked)@.dom().contains(y),
{
    let ghost nodes = db@.tables.nodes;
    let ghost start = marked@.dom();
    let ids = db.node_ids();
    let mut grew = false;
    let mut i: usize = 0;
    while i < ids.len()
        invariant
            i <= ids.len(),
            nodes == db@.tables.nodes,
            lists(ids@, nodes.dom()),
            start.subset_of(marked@.dom()),
            forall|x: TupId| #[trigger] marked@.dom().contains(x) ==> below_some(nodes, x, tops@),
            !grew ==> marked@.dom() == start && forall|j: int|
                0 <= j < i && start.contains(nodes[#[trigger] ids@[j]].dir) ==> start.contains(
                    ids@[j],
                ),
            grew ==> exists|y: TupId| #[trigger]
                nodes.dom().contains(y) && marked@.dom().contains(y) && !start.contains(y),
        decreases ids.len() - i,
    {
        let id = ids[i];
        assert(ids@.contains(ids@[i as int]));
        if let Some(row) = db.node_select_by_id(id) {
            if !marked.contains(&id) && marked.contains(&row.dir) {
                proof {
                    lemma_child_of_some(nodes, id, tops@);
                }
                marked.insert(id, ());
                grew = true;
                assert(nodes.dom().contains(id) && marked@.dom().contains(id) && !start.contains(
                    id,
                ));
            }
        }
        i += 1;
    }
    proof {
        if !grew {
            assert forall|y: TupId| #[trigger]
                nodes.dom().contains(y) && start.contains(nodes[y].dir) implies start.contains(
                y,
            ) by {
                assert(ids@.contains(y));
                let j = choose|j: int| 0 <= j < ids@.len() && ids@[j] == y;
                assert(start.contains(ids@[j]));
            }
        }
    }
    grew
}

/// The nodes among some and below them.
fn mark_below(db: &TupDb, tops: &Vec<TupId>) -> (r: OrdMap<TupId, ()>)
    ensures
        forall|x: TupId| #[trigger] r@.dom().contains(x) <==> below_some(db@.tables.nodes, x, tops@),
{
    let ghost nodes = db@.tables.nodes;
    let mut marked: OrdMap<TupId, ()> = OrdMap::new();
    let mut i: usize = 0;
    while i < tops.len()
        invariant
            i <= tops.len(),
            nodes == db@.tables.nodes,
            forall|j: int| 0 <= j < i ==> marked@.dom().contains(#[trigger] tops@[j]),
            forall|x: TupId| #[trigger] marked@.dom().contains(x) ==> below_some(nodes, x, tops@),
        decreases tops.len() - i,
    {
        let top = tops[i];
        proof {
            assert(steps_up(nodes, top, top, 0));
            assert(tops@.contains(tops@[i as int]));
            assert(at_or_below(nodes, top, top));
        }
        marked.insert(top, ());
        i += 1;
    }
    let mut going = true;
    while going
        invariant
            nodes == db@.tables.nodes,
            forall|j: int| 0 <= j < tops@.len() ==> marked@.dom().contains(#[trigger] tops@[j]),
            forall|x: TupId| #[trigger] marked@.dom().contains(x) ==> below_some(nodes, x, tops@),
            !going ==> forall|y: TupId| #[trigger]
                nodes.dom().contains(y) && marked@.dom().contains(nodes[y].dir)
                    ==> marked@.dom().contains(y),
        decreases
            nodes.dom().difference(marked@.dom()).len(),
            (if going {
                1nat
            } else {
                0
            }),
    {
        let ghost before = marked@.dom();
        going = mark_pass(db, tops, &mut marked);
        proof {
            let a = nodes.dom().difference(before);
            let b = nodes.dom().difference(marked@.dom());
            ids_are_finite(a);
            ids_are_finite(b);
            if going {
                let y = choose|y: TupId| #[trigger]
                    nodes.dom().contains(y) && marked@.dom().contains(y) && !before.contains(y);
                assert(a.contains(y) && !b.contains(y));
                assert(b.subset_of(a.remove(y)));
                ids_are_finite(a.remove(y));
                vstd::set_lib::lemma_len_subset(b, a.remove(y));
            }
        }
    }
    proof {
        assert forall|x: TupId| below_some(nodes, x, tops@) implies #[trigger] marked@.dom().contains(
            x,
        ) by {
            let top = choose|top: TupId|
                tops@.contains(top) && #[trigger] at_or_below(nodes, x, top);
            let j = choose|j: int| 0 <= j < tops@.len() && tops@[j] == top;
            assert(marked@.dom().contains(tops@[j]));
            let k = choose|k: nat| steps_up(nodes, x, top, k);
            lemma_closed(nodes, marked@.dom(), x, top, k);
        }
    }
    marked
}

/// The files among some nodes and below them.
fn list_files(db: &TupDb, tops: &Vec<TupId>) -> (r: Vec<TupId>)
    ensures
        r@ == ascending(files_below(db@.tables.nodes, tops@)),
{
    let ghost nodes = db@.tables.nodes;
    let ghost want = files_below(nodes, tops@);
    let marked = mark_below(db, tops);
    let ids = db.node_ids();
    let mut out: Vec<TupId> = Vec::new();
    let mut i: usize = 0;
    while i < ids.len()
        invariant
            i <= ids.len(),
            nodes == db@.tables.nodes,
            unique_names(nodes),
            want == files_below(nodes, tops@),
            lists(ids@, nodes.dom()),
            forall|x: TupId| #[trigger]
                marked@.dom().contains(x) <==> below_some(nodes, x, tops@),
            increasing(out@),
            forall|j: int|
                0 <= j < out@.len() ==> want.contains(#[trigger] out@[j]) && exists|k: int|
                    0 <= k < i && ids@[k] == out@[j],
            forall|k: int| 0 <= k < i && want.contains(#[trigger] ids@[k]) ==> out@.contains(ids@[k]),
        decreases ids.len() - i,
    {
        let id = ids[i];
        let ghost before = out@;
        assert(ids@.contains(ids@[i as int]));
        if let Some(row) = db.node_select_by_id(id) {
            if row.node_type == NodeType::File && marked.contains(&id) {
                out.push(id);
                proof {
                    assert(out@[before.len() as int] == ids@[i as int]);
                    assert forall|a: int, b: int| 0 <= a < b < out@.len() implies (
                    #[trigger] out@[a]).0 < (#[trigger] out@[b]).0 by {
                        if b == before.len() {
                            let k = choose|k: int| 0 <= k < i && ids@[k] == before[a];
                            assert(ids@[k].0 < ids@[i as int].0);
                        }
                    }
                    assert forall|j: int| 0 <= j < out@.len() implies want.contains(
                        #[trigger] out@[j],
                    ) && exists|k: int| 0 <= k < i + 1 && ids@[k] == out@[j] by {
                        if j < before.len() {
                            assert(out@[j] == before[j]);
                            let k = choose|k: int| 0 <= k < i && ids@[k] == before[j];
                            assert(ids@[k] == out@[j]);
                        }
                    }
                    assert forall|k: int| 0 <= k < i && want.contains(#[trigger] ids@[k]) implies
                        out@.contains(ids@[k]) by {
                        let j = choose|j: int| 0 <= j < before.len() && before[j] == ids@[k];
                        assert(out@[j] == ids@[k]);
                    }
                }
            }
        }
        i += 1;
    }
    proof {
        assert forall|x: TupId| out@.contains(x) <==> want.contains(x) by {
            if want.contains(x) {
                assert(nodes.dom().contains(x));
                assert(ids@.contains(x));
                let k = choose|k: int| 0 <= k < ids@.len() && ids@[k] == x;
                assert(out@.contains(ids@[k]));
            }
        }
        ascending_is_unique(out@, want);
    }
    out
}

/// Lets a file go from the database and from memory.
fn remove_file(db: &mut TupDb, cache: &mut EntryCache, id: TupId)
    requires
        old(db)@.tables.nodes.dom().contains(id),
    ensures
        ({
            let w = world(*old(db), *old(cache)).remove_file(id);
            &&& final(db)@ == old(db)@.with(w.tables)
            &&& final(cache)@ == w.cache
        }),
{
    if let Some(row) = db.node_select_by_id(id) {
        db.flag_add(id, TupFlags::Modify);
        db.modify_cmds_by_input(id);
        db.set_dependent_flags(id);
        db.flag_add(row.dir, TupFlags::Create);
        if db.delete_or_ghost(id) {
            let _ = cache.remove(id);
        } else {
            cache.change_type(id, NodeType::GhostNode);
        }
    }
}

/// Lets the files among some nodes and below them go.
pub fn sweep(db: &mut TupDb, cache: &mut EntryCache, tops: &Vec<TupId>)
    ensures
        ({
            let w = world(*old(db), *old(cache)).sweep(tops@);
            &&& final(db)@ == old(db)@.with(w.tables)
            &&& final(cache)@ == w.cache
        }),
{
    let ghost start = world(*db, *cache);
    let ids = list_files(db, tops);
    proof {
        ascending_lists(files_below(start.tables.nodes, tops@));
        lemma_increasing_no_duplicates(ids@);
        assert(ids@.skip(0) =~= ids@);
        assert forall|j: int| 0 <= j < ids@.len() implies db@.tables.nodes.dom().contains(
            #[trigger] ids@[j],
        ) by {
            assert(ids@.contains(ids@[j]));
        }
    }
    let mut i: usize = 0;
    while i < ids.len()
        invariant
            i <= ids.len(),
            ids@.no_duplicates(),
            start == world(*old(db), *old(cache)),
            db@ == old(db)@.with(db@.tables),
            start.remove_files(ids@) == world(*db, *cache).remove_files(ids@.skip(i as int)),
            forall|j: int| i <= j < ids@.len() ==> db@.tables.nodes.dom().contains(#[trigger] ids@[j]),
        decreases ids.len() - i,
    {
        proof {
            assert(ids@.skip(i as int)[0] == ids@[i as int]);
            assert(ids@.skip(i as int).drop_first() =~= ids@.skip(i + 1));
        }
        remove_file(db, cache, ids[i]);
        i += 1;
    }
    assert(ids@.skip(ids@.len() as int) =~= Seq::empty());
}

} // verus!
