//! The nodes that make it impossible to order a graph.
use vstd::prelude::*;

use crate::graph::dag::{
    edges_from, edges_of, has_link, in_core, is_core, lemma_links_without,
    lemma_multiplicity_found, lemma_multiplicity_positive, links_without, multiplicity, root_id,
    stays, trimmed_away, Edge, Graph, GraphText, Link, NodeState,
};
use crate::graph::walk::{
    depends, edges_between_nodes, headless, headless_sets_hold_cycles, is_cycle,
};
use crate::ids::{ascending, ascending_is_unique, increasing, lists};
use crate::types::{LinkType, NodeType, TupId};

verus! {

/// The graph without the edges that leave the root.
pub open spec fn rootless(g: GraphText) -> GraphText {
    GraphText {
        outgoing: |x: TupId|
            if x == root_id() {
                Seq::empty()
            } else {
                (g.outgoing)(x)
            },
        incoming: |x: TupId| links_without((g.incoming)(x), set![root_id()]),
        ..g
    }
}

/// The nodes on cycles and between cycles.
pub open spec fn cycle_nodes(g: GraphText) -> Set<TupId> {
    Set::new(|x: TupId| in_core(rootless(g), x))
}

/// Every node of a cycle that does not lead through the root is found.
pub proof fn nodes_of_a_cycle_are_found(g: GraphText, p: Seq<TupId>, i: int)
    requires
        g.mirrored(),
        is_cycle(g, p),
        !p.contains(root_id()),
        0 <= i < p.len(),
    ensures
        cycle_nodes(g).contains(p[i]),
{
    let s = p.to_set();
    let h = rootless(g);
    let removed = set![root_id()];
    assert forall|x: TupId| #[trigger] s.contains(x) implies x != root_id()
        && h.nodes.dom().contains(x) && has_link(h, s, (h.incoming)(x)) && has_link(
        h,
        s,
        (h.outgoing)(x),
    ) by {
        let k = choose|k: int| 0 <= k < p.len() && p[k] == x;
        assert(p.contains(p[k]));
        assert(g.nodes.dom().contains(p[k]));
        let before = if k > 0 {
            k - 1
        } else {
            p.len() - 2
        };
        assert(p[before + 1] == x);
        assert(depends(g, p[before + 1], p[before]));
        let a = choose|a: int|
            0 <= a < (g.incoming)(x).len() && (#[trigger] (g.incoming)(x)[a]).0 == p[before];
        assert(p.contains(p[before]));
        lemma_links_without((g.incoming)(x), removed);
        let ins = (h.incoming)(x);
        let b = choose|b: int| 0 <= b < ins.len() && ins[b] == (g.incoming)(x)[a];
        assert(s.contains(ins[b].0));
        assert(has_link(h, s, ins));
        let at = if k < p.len() - 1 {
            k
        } else {
            0
        };
        assert(p[at] == x);
        let next = p[at + 1];
        assert(depends(g, p[at + 1], p[at]));
        let c = choose|c: int|
            0 <= c < (g.incoming)(next).len() && (#[trigger] (g.incoming)(next)[c]).0 == x;
        let style = (g.incoming)(next)[c].1;
        lemma_multiplicity_positive((g.incoming)(next), c);
        assert((g.incoming)(next)[c] == (x, style));
        assert(multiplicity((g.outgoing)(x), (next, style)) == multiplicity(
            (g.incoming)(next),
            (x, style),
        ));
        lemma_multiplicity_found((g.outgoing)(x), (next, style));
        let outs = (h.outgoing)(x);
        let d = choose|d: int| 0 <= d < outs.len() && outs[d] == (next, style);
        assert(p.contains(p[at + 1]));
        assert(s.contains(outs[d].0));
        assert(has_link(h, s, outs));
    }
    assert(is_core(h, s));
    assert(s.contains(p[i])) by {
        assert(p.contains(p[i]));
    }
}

/// A node of a core depends on another one of it.
proof fn lemma_core_depends(g: GraphText, s: Set<TupId>, y: TupId) -> (z: TupId)
    requires
        edges_between_nodes(g),
        is_core(rootless(g), s),
        s.contains(y),
    ensures
        s.contains(z),
        depends(g, y, z),
{
    let h = rootless(g);
    let all = (g.incoming)(y);
    let ins = links_without(all, set![root_id()]);
    assert((h.incoming)(y) == ins);
    assert(has_link(h, s, ins));
    let i = choose|i: int| 0 <= i < ins.len() && stays(h, s, (#[trigger] ins[i]).0);
    let z = ins[i].0;
    lemma_links_without(all, set![root_id()]);
    assert(z != root_id());
    let k = choose|k: int| 0 <= k < all.len() && all[k] == ins[i];
    assert((g.incoming)(y)[k].0 == z);
    assert(depends(g, y, z));
    z
}

/// Where a node is found there is a cycle, if all edges come from nodes.
pub proof fn found_nodes_mean_a_cycle(g: GraphText, x: TupId) -> (p: Seq<TupId>)
    requires
        edges_between_nodes(g),
        cycle_nodes(g).contains(x),
    ensures
        is_cycle(g, p),
{
    let s = choose|s: Set<TupId>| is_core(rootless(g), s) && s.contains(x);
    assert(headless(g, s)) by {
        assert forall|y: TupId| #[trigger] s.contains(y) implies g.nodes.dom().contains(y)
            && exists|z: TupId| s.contains(z) && #[trigger] depends(g, y, z) by {
            let z = lemma_core_depends(g, s, y);
        }
    }
    headless_sets_hold_cycles(g, s, x)
}

proof fn lemma_edges_from(g: GraphText, srcs: Seq<TupId>, e: Edge)
    ensures
        edges_from(g, srcs).contains(e) <==> srcs.contains(e.src) && (g.outgoing)(e.src).contains(
            (e.dest, e.style),
        ),
    decreases srcs.len(),
{
    if srcs.len() > 0 {
        let t = srcs.drop_last();
        let x = srcs.last();
        lemma_edges_from(g, t, e);
        let a = edges_from(g, t);
        let b = edges_of(x, (g.outgoing)(x));
        let r = a + b;
        if r.contains(e) {
            let i = choose|i: int| 0 <= i < r.len() && r[i] == e;
            if i < a.len() {
                assert(a[i] == e);
                let k = choose|k: int| 0 <= k < t.len() && t[k] == e.src;
                assert(srcs[k] == e.src);
            } else {
                assert(b[i - a.len()] == e);
                assert((g.outgoing)(x)[i - a.len()] == (e.dest, e.style));
                assert(srcs[srcs.len() - 1] == e.src);
            }
        }
        if srcs.contains(e.src) && (g.outgoing)(e.src).contains((e.dest, e.style)) {
            let k = choose|k: int| 0 <= k < srcs.len() && srcs[k] == e.src;
            if k < t.len() {
                assert(t[k] == e.src);
                let i = choose|i: int| 0 <= i < a.len() && a[i] == e;
                assert(r[i] == e);
            } else {
                let links = (g.outgoing)(x);
                let m = choose|m: int| 0 <= m < links.len() && links[m] == (e.dest, e.style);
                assert(b[m] == e);
                assert(r[a.len() + m] == e);
            }
        }
    }
}

/// A node is in a list of arriving edges if and only if the edge leaves it.
proof fn lemma_mirror_contains(g: GraphText, a: TupId, b: TupId, style: LinkType)
    requires
        g.mirrored(),
    ensures
        (g.outgoing)(a).contains((b, style)) <==> (g.incoming)(b).contains((a, style)),
{
    let x = (g.outgoing)(a);
    let y = (g.incoming)(b);
    assert(multiplicity((g.outgoing)(a), (b, style)) == multiplicity((g.incoming)(b), (a, style)));
    if x.contains((b, style)) {
        let i = choose|i: int| 0 <= i < x.len() && x[i] == (b, style);
        lemma_multiplicity_positive(x, i);
        lemma_multiplicity_found(y, (a, style));
    }
    if y.contains((a, style)) {
        let i = choose|i: int| 0 <= i < y.len() && y[i] == (a, style);
        lemma_multiplicity_positive(y, i);
        lemma_multiplicity_found(x, (b, style));
    }
}

proof fn lemma_same_links(g: GraphText, h: GraphText, s: Set<TupId>, a: Seq<Link>, b: Seq<Link>)
    requires
        forall|l: Link| #[trigger] a.contains(l) ==> b.contains(l),
        forall|y: TupId| stays(g, s, y) ==> #[trigger] stays(h, s, y),
        has_link(g, s, a),
    ensures
        has_link(h, s, b),
{
    let i = choose|i: int| 0 <= i < a.len() && stays(g, s, (#[trigger] a[i]).0);
    assert(a.contains(a[i]));
    let j = choose|j: int| 0 <= j < b.len() && b[j] == a[i];
    assert(stays(h, s, b[j].0));
}

/// Whether a copy has the nodes of a graph and the edges that leave nodes other
/// than the root.
spec fn is_copy(g: GraphText, c: GraphText) -> bool {
    &&& c.mirrored()
    &&& forall|x: TupId|
        x != root_id() ==> (#[trigger] c.nodes.dom().contains(x) <==> g.nodes.dom().contains(x))
    &&& forall|a: TupId, b: TupId, style: LinkType|
        #![trigger (c.outgoing)(a).contains((b, style))]
        (c.outgoing)(a).contains((b, style)) <==> a != root_id() && (g.outgoing)(a).contains(
            (b, style),
        )
}

proof fn lemma_copy_core(g: GraphText, c: GraphText, s: Set<TupId>)
    requires
        g.mirrored(),
        is_copy(g, c),
    ensures
        is_core(c, s) <==> is_core(rootless(g), s),
{
    let r = rootless(g);
    assert forall|y: TupId| #[trigger] stays(c, s, y) <==> stays(r, s, y) by {
        if y != root_id() {
            assert(c.nodes.dom().contains(y) <==> g.nodes.dom().contains(y));
        }
    }
    assert forall|x: TupId, l: Link| #[trigger] (c.incoming)(x).contains(l) <==> (r.incoming)(
        x,
    ).contains(l) by {
        lemma_mirror_contains(c, l.0, x, l.1);
        lemma_mirror_contains(g, l.0, x, l.1);
        assert(l == (l.0, l.1));
        assert((c.outgoing)(l.0).contains((x, l.1)) <==> l.0 != root_id() && (g.outgoing)(
            l.0,
        ).contains((x, l.1)));
        let all = (g.incoming)(x);
        let some = links_without(all, set![root_id()]);
        lemma_links_without(all, set![root_id()]);
        if some.contains(l) {
            let i = choose|i: int| 0 <= i < some.len() && some[i] == l;
            assert(all.contains(some[i]));
        }
        if all.contains(l) && l.0 != root_id() {
            let i = choose|i: int| 0 <= i < all.len() && all[i] == l;
            assert(some.contains(all[i]));
        }
    }
    assert forall|x: TupId, l: Link| #[trigger] (c.outgoing)(x).contains(l) <==> (r.outgoing)(
        x,
    ).contains(l) by {
        assert(l == (l.0, l.1));
        assert((c.outgoing)(x).contains((l.0, l.1)) <==> x != root_id() && (g.outgoing)(
            x,
        ).contains((l.0, l.1)));
    }
    assert forall|x: TupId| #[trigger] s.contains(x) && x != root_id() implies (
    c.nodes.dom().contains(x) <==> r.nodes.dom().contains(x)) && (has_link(
        c,
        s,
        (c.incoming)(x),
    ) <==> has_link(r, s, (r.incoming)(x))) && (has_link(c, s, (c.outgoing)(x)) <==> has_link(
        r,
        s,
        (r.outgoing)(x),
    )) by {
        let ci = (c.incoming)(x);
        let ri = (r.incoming)(x);
        let co = (c.outgoing)(x);
        let ro = (r.outgoing)(x);
        assert forall|l: Link| #[trigger] ri.contains(l) implies ci.contains(l) by {
            assert((c.incoming)(x).contains(l) <==> (r.incoming)(x).contains(l));
        }
        assert forall|l: Link| #[trigger] ro.contains(l) implies co.contains(l) by {
            assert((c.outgoing)(x).contains(l) <==> (r.outgoing)(x).contains(l));
        }
        if has_link(c, s, ci) {
            lemma_same_links(c, r, s, ci, ri);
        }
        if has_link(r, s, ri) {
            lemma_same_links(r, c, s, ri, ci);
        }
        if has_link(c, s, co) {
            lemma_same_links(c, r, s, co, ro);
        }
        if has_link(r, s, ro) {
            lemma_same_links(r, c, s, ro, co);
        }
    }
    if is_core(c, s) {
        assert forall|x: TupId| #[trigger] s.contains(x) implies x != root_id()
            && r.nodes.dom().contains(x) && has_link(r, s, (r.incoming)(x)) && has_link(
            r,
            s,
            (r.outgoing)(x),
        ) by {}
    }
    if is_core(r, s) {
        assert forall|x: TupId| #[trigger] s.contains(x) implies x != root_id()
            && c.nodes.dom().contains(x) && has_link(c, s, (c.incoming)(x)) && has_link(
            c,
            s,
            (c.outgoing)(x),
        ) by {}
    }
}

proof fn lemma_left_after_trim(g: GraphText, c: GraphText, x: TupId)
    requires
        g.mirrored(),
        is_copy(g, c),
    ensures
        cycle_nodes(g).contains(x) <==> x != root_id() && c.without(
            trimmed_away(c),
        ).nodes.dom().contains(x),
{
    if in_core(c, x) {
        let s = choose|s: Set<TupId>| is_core(c, s) && s.contains(x);
        lemma_copy_core(g, c, s);
        assert(is_core(rootless(g), s) && s.contains(x));
    }
    if in_core(rootless(g), x) {
        let s = choose|s: Set<TupId>| is_core(rootless(g), s) && s.contains(x);
        lemma_copy_core(g, c, s);
        assert(is_core(c, s) && s.contains(x));
    }
}

impl Graph {
    /// A copy of the nodes, and of the edges that leave nodes other than the
    /// root.
    fn copy_without_root_edges(&self) -> (c: Graph)
        requires
            self@.mirrored(),
        ensures
            is_copy(self@, c@),
            c@.nodes.dom().contains(root_id()),
    {
        let ghost g = self@;
        let nodes = self.nodes();
        let ids = self.node_ids();
        let mut c = Graph::new(NodeType::Root);
        let mut i: usize = 0;
        while i < nodes.len()
            invariant
                i <= nodes.len(),
                nodes@.len() == ids@.len(),
                lists(ids@, g.nodes.dom()),
                forall|j: int| 0 <= j < nodes@.len() ==> (#[trigger] nodes@[j]).0 == ids@[j],
                c@.num_nodes <= i,
                c@.mirrored(),
                c@.nodes.dom().contains(root_id()),
                forall|x: TupId|
                    x != root_id() ==> (#[trigger] c@.nodes.dom().contains(x) <==> ids@.take(
                        i as int,
                    ).contains(x)),
                forall|x: TupId| #[trigger]
                    c@.nodes.dom().contains(x) ==> c@.nodes[x].state == NodeState::Initialized,
                forall|x: TupId| #[trigger] (c@.outgoing)(x).len() == 0,
            decreases nodes.len() - i,
        {
            let id = nodes[i].0;
            proof {
                let pre = ids@.take(i as int);
                let next = ids@.take(i + 1);
                assert(nodes@[i as int].0 == ids@[i as int]);
                assert forall|x: TupId| #[trigger] next.contains(x) <==> pre.contains(x) || x
                    == id by {
                    if pre.contains(x) {
                        let j = choose|j: int| 0 <= j < pre.len() && pre[j] == x;
                        assert(next[j] == x);
                    }
                    if next.contains(x) {
                        let j = choose|j: int| 0 <= j < next.len() && next[j] == x;
                        if j < i {
                            assert(pre[j] == x);
                        }
                    }
                    assert(next[i as int] == id);
                }
            }
            let ghost c0 = c@;
            if id != self.root() {
                c.create_node(id, nodes[i].1.node_type);
                assert(c@.outgoing == c0.outgoing);
                assert(c@.incoming == c0.incoming);
                assert(c@.mirrored()) by {
                    assert forall|a: TupId, b: TupId, style: LinkType| #[trigger]
                        multiplicity((c@.outgoing)(a), (b, style)) == multiplicity(
                            (c@.incoming)(b),
                            (a, style),
                        ) by {
                        assert(multiplicity((c0.outgoing)(a), (b, style)) == multiplicity(
                            (c0.incoming)(b),
                            (a, style),
                        ));
                    }
                }
            }
            i += 1;
        }
        proof {
            assert(ids@.take(ids@.len() as int) =~= ids@);
        }
        let edges = self.all_edges();
        let mut k: usize = 0;
        while k < edges.len()
            invariant
                k <= edges.len(),
                c@.mirrored(),
                c@.nodes.dom().contains(root_id()),
                forall|x: TupId|
                    x != root_id() ==> (#[trigger] c@.nodes.dom().contains(x)
                        <==> g.nodes.dom().contains(x)),
                forall|x: TupId| #[trigger]
                    c@.nodes.dom().contains(x) ==> c@.nodes[x].state == NodeState::Initialized,
                forall|a: TupId, b: TupId, style: LinkType|
                    #![trigger (c@.outgoing)(a).contains((b, style))]
                    (c@.outgoing)(a).contains((b, style)) <==> a != root_id() && edges@.take(
                        k as int,
                    ).contains(Edge { src: a, dest: b, style }),
            decreases edges.len() - k,
        {
            let e = edges[k];
            let ghost c0 = c@;
            let ghost pre = edges@.take(k as int);
            let ghost next = edges@.take(k + 1);
            proof {
                assert forall|f: Edge| #[trigger] next.contains(f) <==> pre.contains(f) || f
                    == e by {
                    if pre.contains(f) {
                        let j = choose|j: int| 0 <= j < pre.len() && pre[j] == f;
                        assert(next[j] == f);
                    }
                    if next.contains(f) {
                        let j = choose|j: int| 0 <= j < next.len() && next[j] == f;
                        if j < k {
                            assert(pre[j] == f);
                        }
                    }
                    assert(next[k as int] == e);
                }
            }
            if e.src != self.root() {
                let _ = c.create_edge(e.src, e.dest, e.style);
                proof {
                    assert(!c0.in_process(e.dest));
                    assert(c@ == c0.with_edge(e.src, e.dest, e.style));
                    assert forall|a: TupId, b: TupId, style: LinkType|
                        #![trigger (c@.outgoing)(a).contains((b, style))]
                        (c@.outgoing)(a).contains((b, style)) <==> a != root_id() && next.contains(
                            Edge { src: a, dest: b, style },
                        ) by {
                        let old_links = (c0.outgoing)(a);
                        let links = (c@.outgoing)(a);
                        assert((c0.outgoing)(a).contains((b, style)) <==> a != root_id()
                            && pre.contains(Edge { src: a, dest: b, style }));
                        if a == e.src {
                            assert(links == old_links.push((e.dest, e.style)));
                            assert(links[old_links.len() as int] == (e.dest, e.style));
                            if old_links.contains((b, style)) {
                                let j = choose|j: int|
                                    0 <= j < old_links.len() && old_links[j] == (b, style);
                                assert(links[j] == (b, style));
                            }
                            if links.contains((b, style)) {
                                let j = choose|j: int|
                                    0 <= j < links.len() && links[j] == (b, style);
                                if j < old_links.len() {
                                    assert(old_links[j] == (b, style));
                                }
                            }
                        } else {
                            assert(links == old_links);
                        }
                        assert(next.contains(Edge { src: a, dest: b, style }) <==> pre.contains(
                            Edge { src: a, dest: b, style },
                        ) || Edge { src: a, dest: b, style } == e);
                    }
                }
            } else {
                proof {
                    assert forall|a: TupId, b: TupId, style: LinkType|
                        #![trigger (c@.outgoing)(a).contains((b, style))]
                        (c@.outgoing)(a).contains((b, style)) <==> a != root_id() && next.contains(
                            Edge { src: a, dest: b, style },
                        ) by {
                        assert(next.contains(Edge { src: a, dest: b, style }) <==> pre.contains(
                            Edge { src: a, dest: b, style },
                        ) || Edge { src: a, dest: b, style } == e);
                    }
                }
            }
            k += 1;
        }
        proof {
            assert(edges@.take(edges@.len() as int) =~= edges@);
            let srcs = ascending(g.sources());
            assert forall|a: TupId, b: TupId, style: LinkType|
                #![trigger (c@.outgoing)(a).contains((b, style))]
                (c@.outgoing)(a).contains((b, style)) <==> a != root_id() && (g.outgoing)(
                    a,
                ).contains((b, style)) by {
                lemma_edges_from(g, srcs, Edge { src: a, dest: b, style });
                if (g.outgoing)(a).contains((b, style)) {
                    assert(g.sources().contains(a));
                    assert(srcs.contains(a));
                }
            }
        }
        c
    }

    /// The nodes on cycles, and those between cycles, in increasing order.
    pub fn find_cycle_nodes(&self) -> (r: Vec<TupId>)
        ensures
            r@ == ascending(cycle_nodes(self@)),
    {
        self.edges_are_mirrored();
        let ghost g = self@;
        let mut c = self.copy_without_root_edges();
        let ghost c0 = c@;
        c.trim();
        let ids = c.node_ids();
        let mut out: Vec<TupId> = Vec::new();
        let mut i: usize = 0;
        while i < ids.len()
            invariant
                i <= ids@.len(),
                increasing(ids@),
                increasing(out@),
                forall|x: TupId| #[trigger]
                    out@.contains(x) <==> ids@.take(i as int).contains(x) && x != root_id(),
            decreases ids.len() - i,
        {
            let id = ids[i];
            let ghost before = out@;
            proof {
                let pre = ids@.take(i as int);
                let next = ids@.take(i + 1);
                assert forall|x: TupId| #[trigger] next.contains(x) <==> pre.contains(x) || x
                    == id by {
                    if pre.contains(x) {
                        let j = choose|j: int| 0 <= j < pre.len() && pre[j] == x;
                        assert(next[j] == x);
                    }
                    if next.contains(x) {
                        let j = choose|j: int| 0 <= j < next.len() && next[j] == x;
                        if j < i {
                            assert(pre[j] == x);
                        }
                    }
                    assert(next[i as int] == id);
                }
                let n = before.push(id);
                assert forall|x: TupId| #[trigger] n.contains(x) <==> before.contains(x) || x
                    == id by {
                    if before.contains(x) {
                        let j = choose|j: int| 0 <= j < before.len() && before[j] == x;
                        assert(n[j] == x);
                    }
                    assert(n[before.len() as int] == id);
                }
                assert forall|p: int, q: int| 0 <= p < q < n.len() implies (#[trigger] n[p]).0 < (
                #[trigger] n[q]).0 by {
                    if q == before.len() {
                        assert(before.contains(before[p]));
                        assert(pre.contains(before[p]));
                        let j = choose|j: int| 0 <= j < pre.len() && pre[j] == before[p];
                        assert(ids@[j].0 < ids@[i as int].0);
                    }
                }
            }
            if id != self.root() {
                out.push(id);
            }
            i += 1;
        }
        proof {
            assert(ids@.take(ids@.len() as int) =~= ids@);
            assert forall|x: TupId| out@.contains(x) <==> cycle_nodes(g).contains(x) by {
                lemma_left_after_trim(g, c0, x);
            }
            ascending_is_unique(out@, cycle_nodes(g));
        }
        out
    }
}

} // verus!
