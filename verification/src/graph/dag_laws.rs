//! What holds of graphs that change.
use vstd::prelude::*;

use crate::graph::dag::{
    kept, lemma_links_without, links_without, need_chain, needs, pruned_away, GraphText, Link,
    NodeState, TransientState,
};
use crate::graph::walk::{chained, pruning_keeps_what_is_needed};
use crate::ids::ids_without;
use crate::types::{LinkType, NodeType, TupId};

verus! {

/// A new node is there, untouched and without edges that were not there; it comes last in the
/// list, and is counted where its type is. All other nodes and all edges stay.
pub proof fn a_new_node_is_untouched(g: GraphText, id: TupId, t: NodeType, x: TupId)
    requires
        !g.nodes.dom().contains(id),
        g.num_nodes < usize::MAX,
    ensures
        ({
            let h = g.with_node(id, t);
            let n = h.nodes[id];
            &&& h.nodes.dom().contains(id)
            &&& n.id == id && n.node_type == t && n.state == NodeState::Initialized
            &&& n.transient == TransientState::Regular
            &&& n.skip && !n.marked && !n.counted && !n.expanded && !n.parsing && !n.already_used
            &&& h.node_list == g.node_list.push(id)
            &&& h.num_nodes == g.num_nodes + if g.count_flags == t || g.count_flags
                == NodeType::Root {
                1int
            } else {
                0
            }
            &&& x != id ==> h.nodes.dom().contains(x) == g.nodes.dom().contains(x)
            &&& x != id && g.nodes.dom().contains(x) ==> h.nodes[x] == g.nodes[x]
            &&& (h.outgoing)(x) == (g.outgoing)(x)
            &&& (h.incoming)(x) == (g.incoming)(x)
            &&& h.plist == g.plist
            &&& h.with_node(id, NodeType::File) == h
        }),
{
}

/// A new edge leaves its source and arrives at its destination, behind the edges that were
/// there; no other edge and no node changes.
pub proof fn a_new_edge_joins_its_ends(
    g: GraphText,
    src: TupId,
    dest: TupId,
    style: LinkType,
    x: TupId,
)
    ensures
        ({
            let h = g.with_edge(src, dest, style);
            &&& (h.outgoing)(src) == (g.outgoing)(src) + seq![(dest, style)]
            &&& (h.incoming)(dest) == (g.incoming)(dest) + seq![(src, style)]
            &&& x != src ==> (h.outgoing)(x) == (g.outgoing)(x)
            &&& x != dest ==> (h.incoming)(x) == (g.incoming)(x)
            &&& h.nodes == g.nodes && h.node_list == g.node_list && h.plist == g.plist
            &&& h.num_nodes == g.num_nodes
        }),
{
    let h = g.with_edge(src, dest, style);
    assert((h.outgoing)(src) =~= (g.outgoing)(src) + seq![(dest, style)]);
    assert((h.incoming)(dest) =~= (g.incoming)(dest) + seq![(src, style)]);
}

/// What stays of a list: the identifiers that are not taken out, in their order.
pub proof fn the_others_stay_in_order(
    a: Seq<TupId>,
    b: Seq<TupId>,
    removed: Set<TupId>,
    x: TupId,
)
    ensures
        ids_without(a + b, removed) == ids_without(a, removed) + ids_without(b, removed),
        removed.contains(x) ==> ids_without(seq![x], removed) == Seq::<TupId>::empty(),
        !removed.contains(x) ==> ids_without(seq![x], removed) == seq![x],
        removed.contains(x) ==> !ids_without(a, removed).contains(x),
        ids_without(Seq::empty(), removed) == Seq::<TupId>::empty(),
    decreases b.len(), a.len(),
{
    let one = seq![x];
    assert(one.drop_last() =~= Seq::empty());
    assert(one.last() == x);
    assert(ids_without(one.drop_last(), removed) =~= Seq::empty());
    if !removed.contains(x) {
        assert(ids_without(one, removed) =~= seq![x]);
    }
    lemma_taken_out(a, removed, x);
    if b.len() == 0 {
        assert(a + b =~= a);
        assert(ids_without(a, removed) + ids_without(b, removed) =~= ids_without(a, removed));
    } else {
        the_others_stay_in_order(a, b.drop_last(), removed, x);
        assert((a + b).drop_last() =~= a + b.drop_last());
        assert((a + b).last() == b.last());
        assert(ids_without(a + b, removed) =~= ids_without(a, removed) + ids_without(b, removed));
    }
}

proof fn lemma_taken_out(a: Seq<TupId>, removed: Set<TupId>, x: TupId)
    ensures
        removed.contains(x) ==> !ids_without(a, removed).contains(x),
    decreases a.len(),
{
    if a.len() > 0 && removed.contains(x) {
        let before = ids_without(a.drop_last(), removed);
        let r = ids_without(a, removed);
        lemma_taken_out(a.drop_last(), removed, x);
        if r.contains(x) {
            let i = choose|i: int| 0 <= i < r.len() && r[i] == x;
            if i < before.len() {
                assert(before[i] == x);
            }
        }
    }
}

/// A node that is finished has that state, waits no longer, and is in the list of nodes; other
/// nodes and the edges stay.
pub proof fn finished_nodes_wait_no_longer(g: GraphText, id: TupId, x: TupId)
    requires
        g.nodes.dom().contains(id),
    ensures
        ({
            let h = g.finished(id);
            &&& h.nodes.dom().contains(id) && h.nodes[id].state == NodeState::Finished
            &&& h.nodes[id].node_type == g.nodes[id].node_type
            &&& !h.in_process(id)
            &&& !h.plist.contains(id)
            &&& h.node_list.contains(id)
            &&& g.node_list.is_prefix_of(h.node_list)
            &&& x != id ==> h.nodes.dom().contains(x) == g.nodes.dom().contains(x)
            &&& x != id && g.nodes.dom().contains(x) ==> h.nodes[x] == g.nodes[x]
            &&& (h.outgoing)(x) == (g.outgoing)(x)
            &&& (h.incoming)(x) == (g.incoming)(x)
        }),
{
    let h = g.finished(id);
    the_others_stay_in_order(g.plist, Seq::empty(), set![id], id);
    if !g.node_list.contains(id) {
        assert(h.node_list[h.node_list.len() - 1] == id);
        assert(h.node_list.subrange(0, g.node_list.len() as int) =~= g.node_list);
    } else {
        assert(g.node_list.subrange(0, g.node_list.len() as int) =~= g.node_list);
    }
}

/// Removed nodes are gone from the graph with all of their edges; every other node stays, with
/// its edges to others that stay.
pub proof fn nothing_is_left_of_removed_nodes(g: GraphText, removed: Set<TupId>, x: TupId, l: Link)
    ensures
        ({
            let h = g.without(removed);
            &&& removed.contains(x) ==> !h.nodes.dom().contains(x) && (h.outgoing)(x).len() == 0
                && (h.incoming)(x).len() == 0
            &&& !removed.contains(x) ==> {
                &&& h.nodes.dom().contains(x) == g.nodes.dom().contains(x)
                &&& g.nodes.dom().contains(x) ==> h.nodes[x] == g.nodes[x]
                &&& (h.outgoing)(x).contains(l) <==> (g.outgoing)(x).contains(l)
                    && !removed.contains(l.0)
                &&& (h.incoming)(x).contains(l) <==> (g.incoming)(x).contains(l)
                    && !removed.contains(l.0)
            }
        }),
{
    lemma_kept_link((g.outgoing)(x), removed, l);
    lemma_kept_link((g.incoming)(x), removed, l);
}

proof fn lemma_kept_link(s: Seq<Link>, removed: Set<TupId>, l: Link)
    ensures
        links_without(s, removed).contains(l) <==> s.contains(l) && !removed.contains(l.0),
{
    lemma_links_without(s, removed);
    let r = links_without(s, removed);
    if r.contains(l) {
        let i = choose|i: int| 0 <= i < r.len() && r[i] == l;
        assert(!removed.contains(r[i].0));
    }
    if s.contains(l) && !removed.contains(l.0) {
        let i = choose|i: int| 0 <= i < s.len() && s[i] == l;
        assert(r.contains(s[i]));
    }
}

/// Whether a set holds, with each node, what it depends on, and with each command its outputs.
pub open spec fn holds_what_is_needed(g: GraphText, s: Set<TupId>) -> bool {
    &&& forall|a: TupId, l: Link|
        #![trigger s.contains(a), (g.incoming)(a).contains(l)]
        s.contains(a) && (g.incoming)(a).contains(l) ==> s.contains(l.0)
    &&& forall|a: TupId, l: Link|
        #![trigger s.contains(a), (g.outgoing)(a).contains(l)]
        s.contains(a) && g.nodes.dom().contains(a) && g.nodes[a].node_type == NodeType::Cmd && (
        g.outgoing)(a).contains(l) ==> s.contains(l.0)
}

proof fn lemma_chain_in(g: GraphText, targets: Seq<TupId>, s: Set<TupId>, p: Seq<TupId>, k: int)
    requires
        need_chain(g, targets, p),
        forall|i: int| 0 <= i < targets.len() ==> s.contains(#[trigger] targets[i]),
        holds_what_is_needed(g, s),
        0 <= k < p.len(),
    ensures
        s.contains(p[k]),
    decreases k,
{
    if k == 0 {
        let i = choose|i: int| 0 <= i < targets.len() && targets[i] == p[0];
        assert(s.contains(targets[i]));
    } else {
        lemma_chain_in(g, targets, s, p, k - 1);
        let a = p[k - 1];
        assert(needs(g, p[k - 1], p[(k - 1) + 1]));
        if exists|i: int| 0 <= i < (g.incoming)(a).len() && (#[trigger] (g.incoming)(a)[i]).0 == p[k] {
            let i = choose|i: int|
                0 <= i < (g.incoming)(a).len() && (#[trigger] (g.incoming)(a)[i]).0 == p[k];
            assert((g.incoming)(a).contains((g.incoming)(a)[i]));
        } else {
            let i = choose|i: int|
                0 <= i < (g.outgoing)(a).len() && (#[trigger] (g.outgoing)(a)[i]).0 == p[k];
            assert((g.outgoing)(a).contains((g.outgoing)(a)[i]));
        }
    }
}

/// Pruning to some targets keeps the root, the targets, what a node that is kept for them
/// depends on, and the outputs of commands that are kept for them. It keeps nothing that these
/// do not ask for.
pub proof fn pruning_keeps_inputs_and_outputs(
    g: GraphText,
    targets: Seq<TupId>,
    a: TupId,
    l: Link,
    s: Set<TupId>,
    x: TupId,
)
    requires
        g.nodes.dom().contains(x),
    ensures
        !pruned_away(g, targets).contains(TupId(0)),
        targets.contains(a) ==> !pruned_away(g, targets).contains(a),
        chained(g, targets, a) && (g.incoming)(a).contains(l) ==> !pruned_away(
            g,
            targets,
        ).contains(l.0),
        chained(g, targets, a) && g.nodes.dom().contains(a) && g.nodes[a].node_type
            == NodeType::Cmd && (g.outgoing)(a).contains(l) ==> !pruned_away(g, targets).contains(
            l.0,
        ),
        x.0 != 0 && !s.contains(x) && holds_what_is_needed(g, s) && (forall|i: int|
            0 <= i < targets.len() ==> s.contains(#[trigger] targets[i])) ==> pruned_away(
            g,
            targets,
        ).contains(x),
{
    pruning_keeps_what_is_needed(g, targets, a, l.0);
    pruning_keeps_what_is_needed(g, targets, l.0, l.0);
    if (g.incoming)(a).contains(l) {
        let links = (g.incoming)(a);
        let i = choose|i: int| 0 <= i < links.len() && links[i] == l;
        assert((g.incoming)(a)[i].0 == l.0);
        assert(needs(g, a, l.0));
    }
    if (g.outgoing)(a).contains(l) {
        let links = (g.outgoing)(a);
        let i = choose|i: int| 0 <= i < links.len() && links[i] == l;
        assert((g.outgoing)(a)[i].0 == l.0);
    }
    if x.0 != 0 && !s.contains(x) && holds_what_is_needed(g, s) && (forall|i: int|
        0 <= i < targets.len() ==> s.contains(#[trigger] targets[i])) {
        if kept(g, targets, x) {
            let p = choose|p: Seq<TupId>| #[trigger]
                need_chain(g, targets, p) && p.last() == x;
            lemma_chain_in(g, targets, s, p, p.len() - 1);
        }
    }
}

} // verus!
