//! Walks over the graph: trimming, pruning, and the order of dependencies.
use vstd::prelude::*;

use crate::graph::dag::{
    has_link, in_core, is_core, kept, lemma_chain_extends, lemma_closed_keeps_chain,
    lemma_links_without, lemma_without_none, links_without, multiplicity, need_chain, needs,
    occurrences, pruned_away, removal_in_steps, root_id, stays, trimmed_away, Graph, GraphText,
    Link, NodeState,
};
use crate::ids::{ascending, ascending_is_unique, increasing, lists};
use crate::ordmap::OrdMap;
use crate::types::{ids_are_finite, LinkType, NodeType, TupId};

verus! {

/// Whether a node has no edges that leave it, or none that arrive at it.
pub open spec fn is_loose(g: GraphText, id: TupId) -> bool {
    &&& g.nodes.dom().contains(id)
    &&& id != root_id()
    &&& ((g.incoming)(id).len() == 0 || (g.outgoing)(id).len() == 0)
}

/// Whether a node has edges from nothing, or only from finished nodes, and has
/// not been begun.
pub open spec fn is_ready(g: GraphText, id: TupId) -> bool {
    &&& g.nodes.dom().contains(id)
    &&& id != root_id()
    &&& g.nodes[id].state == NodeState::Initialized
    &&& forall|i: int|
        0 <= i < (g.incoming)(id).len() ==> is_finished(g, (#[trigger] (g.incoming)(id)[i]).0)
}

/// Whether nothing of a node is left to do: it is finished, or not there.
pub open spec fn is_finished(g: GraphText, id: TupId) -> bool {
    !g.nodes.dom().contains(id) || g.nodes[id].state == NodeState::Finished
}

/// A core of a graph outlives the removal of nodes outside it.
proof fn lemma_core_survives(g: GraphText, gone: Set<TupId>, s: Set<TupId>, x: TupId)
    requires
        is_core(g, s),
        s.contains(x),
        forall|y: TupId| #[trigger]
            gone.contains(y) ==> g.nodes.dom().contains(y) && y != root_id() && !in_core(g, y),
    ensures
        !gone.contains(x),
        !is_loose(g.without(gone), x),
{
    let h = g.without(gone);
    assert(in_core(g, x));
    assert(has_link(g, s, (g.incoming)(x)));
    let i = choose|i: int|
        0 <= i < (g.incoming)(x).len() && stays(g, s, (#[trigger] (g.incoming)(x)[i]).0);
    let y = (g.incoming)(x)[i].0;
    assert(!gone.contains(y)) by {
        if s.contains(y) {
            assert(in_core(g, y));
        }
    }
    lemma_links_without((g.incoming)(x), gone);
    let j = choose|j: int|
        0 <= j < (g.outgoing)(x).len() && stays(g, s, (#[trigger] (g.outgoing)(x)[j]).0);
    let z = (g.outgoing)(x)[j].0;
    assert(!gone.contains(z)) by {
        if s.contains(z) {
            assert(in_core(g, z));
        }
    }
    lemma_links_without((g.outgoing)(x), gone);
    assert(links_without((g.incoming)(x), gone).contains((g.incoming)(x)[i]));
    assert(links_without((g.outgoing)(x), gone).contains((g.outgoing)(x)[j]));
}

/// What is left when no loose node is left is a core.
proof fn lemma_rest_is_core(g: GraphText, gone: Set<TupId>)
    requires
        forall|y: TupId| #[trigger]
            gone.contains(y) ==> g.nodes.dom().contains(y) && y != root_id() && !in_core(g, y),
        forall|y: TupId| !#[trigger] is_loose(g.without(gone), y),
    ensures
        gone == trimmed_away(g),
{
    let h = g.without(gone);
    let s = Set::new(
        |x: TupId| g.nodes.dom().contains(x) && x != root_id() && !gone.contains(x),
    );
    assert(is_core(g, s)) by {
        assert forall|x: TupId| #[trigger] s.contains(x) implies x != root_id()
            && g.nodes.dom().contains(x) && has_link(g, s, (g.incoming)(x)) && has_link(
            g,
            s,
            (g.outgoing)(x),
        ) by {
            assert(h.nodes.dom().contains(x));
            assert(!is_loose(h, x));
            lemma_links_without((g.incoming)(x), gone);
            lemma_links_without((g.outgoing)(x), gone);
            let a = links_without((g.incoming)(x), gone);
            let b = links_without((g.outgoing)(x), gone);
            assert((h.incoming)(x) == a);
            assert((h.outgoing)(x) == b);
            assert(!gone.contains(a[0].0) && (g.incoming)(x).contains(a[0]));
            assert(!gone.contains(b[0].0) && (g.outgoing)(x).contains(b[0]));
            let i = choose|i: int| 0 <= i < (g.incoming)(x).len() && #[trigger] (g.incoming)(x)[i]
                == a[0];
            let j = choose|j: int| 0 <= j < (g.outgoing)(x).len() && #[trigger] (g.outgoing)(x)[j]
                == b[0];
            assert(stays(g, s, (g.incoming)(x)[i].0));
            assert(stays(g, s, (g.outgoing)(x)[j].0));
        }
    }
    assert forall|id: TupId| gone.contains(id) <==> trimmed_away(g).contains(id) by {
        if g.nodes.dom().contains(id) && id != root_id() && !gone.contains(id) {
            assert(s.contains(id));
            assert(in_core(g, id));
        }
    }
    assert(gone =~= trimmed_away(g));
}

pub open spec fn chained(g: GraphText, targets: Seq<TupId>, id: TupId) -> bool {
    exists|p: Seq<TupId>| #[trigger] need_chain(g, targets, p) && p.last() == id
}

/// Pruning keeps the targets, and with what they need everything that this needs.
pub proof fn pruning_keeps_what_is_needed(g: GraphText, targets: Seq<TupId>, a: TupId, b: TupId)
    ensures
        targets.contains(a) ==> chained(g, targets, a),
        chained(g, targets, a) ==> !pruned_away(g, targets).contains(a),
        chained(g, targets, a) && needs(g, a, b) ==> chained(g, targets, b),
{
    if targets.contains(a) {
        let p = seq![a];
        assert(need_chain(g, targets, p) && p.last() == a);
    }
    if chained(g, targets, a) && needs(g, a, b) {
        lemma_chain_extends(g, targets, a, b);
    }
}

// ------------------------------------------------ order of dependencies

/// Whether all nodes that the node at a place depends on stand before it.
pub open spec fn sources_before(g: GraphText, w: Seq<TupId>, j: int) -> bool {
    forall|k: int|
        0 <= k < (g.incoming)(w[j]).len() ==> w.take(j).contains(
            (#[trigger] (g.incoming)(w[j])[k]).0,
        )
}

/// Whether a list holds nodes, each once, and each after all that it depends
/// on.
pub open spec fn partial_order(g: GraphText, w: Seq<TupId>) -> bool {
    &&& w.no_duplicates()
    &&& forall|i: int| 0 <= i < w.len() ==> g.nodes.dom().contains(#[trigger] w[i])
    &&& forall|j: int| 0 <= j < w.len() ==> #[trigger] sources_before(g, w, j)
}

/// Whether a list holds all nodes, each once, and each after all that it
/// depends on.
pub open spec fn is_topological(g: GraphText, w: Seq<TupId>) -> bool {
    partial_order(g, w) && forall|x: TupId| #[trigger]
        g.nodes.dom().contains(x) ==> w.contains(x)
}

/// The number of edges to a node from nodes that are not done.
pub open spec fn left(g: GraphText, done: Set<TupId>, x: TupId) -> nat {
    links_without((g.incoming)(x), done).len()
}

proof fn lemma_occurrences_styles(s: Seq<Link>, id: TupId)
    ensures
        occurrences(s, id) == multiplicity(s, (id, LinkType::Normal)) + multiplicity(
            s,
            (id, LinkType::Sticky),
        ) + multiplicity(s, (id, LinkType::Group)),
    decreases s.len(),
{
    if s.len() > 0 {
        lemma_occurrences_styles(s.drop_last(), id);
        let l = s.last();
        assert(l == (l.0, l.1));
        match l.1 {
            LinkType::Normal => {},
            LinkType::Sticky => {},
            LinkType::Group => {},
        }
    }
}

/// In a mirrored graph two nodes name each other equally often.
proof fn lemma_mirror_occurrences(g: GraphText, a: TupId, b: TupId)
    requires
        g.mirrored(),
    ensures
        occurrences((g.outgoing)(a), b) == occurrences((g.incoming)(b), a),
{
    lemma_occurrences_styles((g.outgoing)(a), b);
    lemma_occurrences_styles((g.incoming)(b), a);
    assert(multiplicity((g.outgoing)(a), (b, LinkType::Normal)) == multiplicity(
        (g.incoming)(b),
        (a, LinkType::Normal),
    ));
    assert(multiplicity((g.outgoing)(a), (b, LinkType::Sticky)) == multiplicity(
        (g.incoming)(b),
        (a, LinkType::Sticky),
    ));
    assert(multiplicity((g.outgoing)(a), (b, LinkType::Group)) == multiplicity(
        (g.incoming)(b),
        (a, LinkType::Group),
    ));
}

proof fn lemma_left_step(s: Seq<Link>, done: Set<TupId>, id: TupId)
    requires
        !done.contains(id),
    ensures
        links_without(s, done.insert(id)).len() + occurrences(s, id) == links_without(
            s,
            done,
        ).len(),
    decreases s.len(),
{
    if s.len() > 0 {
        lemma_left_step(s.drop_last(), done, id);
    }
}

proof fn lemma_occurrences_take(s: Seq<Link>, k: int, x: TupId)
    requires
        0 <= k <= s.len(),
    ensures
        occurrences(s.take(k), x) <= occurrences(s, x),
    decreases s.len() - k,
{
    if k < s.len() {
        assert(s.take(k + 1).drop_last() =~= s.take(k));
        lemma_occurrences_take(s, k + 1, x);
    } else {
        assert(s.take(k) =~= s);
    }
}

proof fn lemma_none_left(s: Seq<Link>, done: Set<TupId>)
    requires
        links_without(s, done).len() == 0,
    ensures
        forall|k: int| 0 <= k < s.len() ==> done.contains((#[trigger] s[k]).0),
{
    lemma_links_without(s, done);
    assert forall|k: int| 0 <= k < s.len() implies done.contains((#[trigger] s[k]).0) by {
        if !done.contains(s[k].0) {
            assert(links_without(s, done).contains(s[k]));
        }
    }
}

proof fn lemma_all_done_none_left(s: Seq<Link>, done: Set<TupId>)
    requires
        forall|k: int| 0 <= k < s.len() ==> done.contains((#[trigger] s[k]).0),
    ensures
        links_without(s, done).len() == 0,
{
    lemma_links_without(s, done);
    let r = links_without(s, done);
    if r.len() > 0 {
        assert(!done.contains(r[0].0) && s.contains(r[0]));
        let k = choose|k: int| 0 <= k < s.len() && s[k] == r[0];
        assert(done.contains(s[k].0));
    }
}

/// The nodes to which no edges are left once the first edges of a list, from one
/// node, are counted, in the order in which that happens.
pub open spec fn released(
    g: GraphText,
    done: Set<TupId>,
    links: Seq<Link>,
    n: nat,
) -> Seq<TupId>
    decreases n,
{
    if n == 0 || n > links.len() {
        Seq::empty()
    } else {
        let before = released(g, done, links, (n - 1) as nat);
        let dest = links[n - 1].0;
        if g.nodes.dom().contains(dest) && left(g, done, dest) == occurrences(
            links.take(n as int),
            dest,
        ) {
            before.push(dest)
        } else {
            before
        }
    }
}

/// A list of nodes after some steps, of which each releases nodes from the next
/// node of the list and puts them at its end.
pub open spec fn queue_after(g: GraphText, order: Seq<TupId>, head: nat, steps: nat) -> Seq<TupId>
    decreases steps,
{
    if steps == 0 || head >= order.len() {
        order
    } else {
        let links = (g.outgoing)(order[head as int]);
        queue_after(
            g,
            order + released(g, order.take(head as int).to_set(), links, links.len()),
            head + 1,
            (steps - 1) as nat,
        )
    }
}

/// The nodes that nothing leads to.
pub open spec fn heads(g: GraphText) -> Set<TupId> {
    Set::new(|x: TupId| g.nodes.dom().contains(x) && (g.incoming)(x).len() == 0)
}

/// The nodes in the order in which they can be processed: first those that nothing
/// leads to, in increasing order, then each one as soon as no edges to it are
/// left. Nodes on cycles and behind them are not in it.
pub open spec fn process_order(g: GraphText) -> Seq<TupId> {
    queue_after(g, ascending(heads(g)), 0, g.nodes.dom().len())
}

/// What holds of a list of nodes, done and waiting, while the order is built:
/// the nodes with no edges left are those in the list.
spec fn building(
    g: GraphText,
    order: Seq<TupId>,
    deg: Map<TupId, usize>,
) -> bool {
    &&& deg.dom() == g.nodes.dom()
    &&& partial_order(g, order)
    &&& forall|x: TupId| #[trigger]
        deg.dom().contains(x) ==> (order.contains(x) <==> deg[x] == 0)
}

/// Where the building of an order got stuck, every order of the nodes keeps to
/// the nodes that it reached.
proof fn lemma_stuck(
    g: GraphText,
    order: Seq<TupId>,
    deg: Map<TupId, usize>,
    w: Seq<TupId>,
    n: int,
)
    requires
        building(g, order, deg),
        forall|x: TupId| #[trigger]
            deg.dom().contains(x) ==> deg[x] == left(g, order.to_set(), x),
        is_topological(g, w),
        0 <= n <= w.len(),
    ensures
        forall|j: int| 0 <= j < n ==> order.contains(#[trigger] w[j]),
    decreases n,
{
    if n > 0 {
        lemma_stuck(g, order, deg, w, n - 1);
        let x = w[n - 1];
        let pre = w.take(n - 1);
        assert(sources_before(g, w, n - 1));
        assert forall|k: int| 0 <= k < (g.incoming)(x).len() implies order.to_set().contains(
            (#[trigger] (g.incoming)(x)[k]).0,
        ) by {
            let y = (g.incoming)(x)[k].0;
            assert(pre.contains(y));
            let j = choose|j: int| 0 <= j < pre.len() && pre[j] == y;
            assert(w[j] == y);
        }
        lemma_all_done_none_left((g.incoming)(x), order.to_set());
        assert(g.nodes.dom().contains(x));
        assert(deg.dom().contains(x));
    }
}

proof fn lemma_complete(g: GraphText, w: Seq<TupId>)
    requires
        partial_order(g, w),
    ensures
        w.len() <= g.nodes.dom().len(),
        w.len() == g.nodes.dom().len() <==> is_topological(g, w),
{
    let dom = g.nodes.dom();
    ids_are_finite(dom);
    w.unique_seq_to_set();
    assert(w.to_set().subset_of(dom)) by {
        assert forall|x: TupId| w.to_set().contains(x) implies dom.contains(x) by {
            let i = choose|i: int| 0 <= i < w.len() && w[i] == x;
            assert(dom.contains(w[i]));
        }
    }
    vstd::set_lib::lemma_len_subset(w.to_set(), dom);
    if w.len() == dom.len() {
        vstd::set_lib::lemma_subset_equality(w.to_set(), dom);
        assert forall|x: TupId| #[trigger] dom.contains(x) implies w.contains(x) by {
            assert(w.to_set().contains(x));
        }
    }
    if is_topological(g, w) {
        assert(w.to_set() =~= dom) by {
            assert forall|x: TupId| dom.contains(x) implies w.to_set().contains(x) by {
                assert(w.contains(x));
            }
        }
    }
}

// ------------------------------------------------ cycles

/// A cycle: a list of at least two nodes that begins and ends with the same
/// one, and in which each depends on the one before it.
pub open spec fn is_cycle(g: GraphText, p: Seq<TupId>) -> bool {
    &&& p.len() >= 2
    &&& p[0] == p.last()
    &&& forall|i: int| 0 <= i < p.len() - 1 ==> depends(g, #[trigger] p[i + 1], p[i])
    &&& forall|i: int| 0 <= i < p.len() ==> g.nodes.dom().contains(#[trigger] p[i])
}

/// Whether an edge leads from `b` to `a`.
pub open spec fn depends(g: GraphText, a: TupId, b: TupId) -> bool {
    exists|k: int| 0 <= k < (g.incoming)(a).len() && (#[trigger] (g.incoming)(a)[k]).0 == b
}

/// Whether all edges that arrive at nodes come from nodes.
pub open spec fn edges_between_nodes(g: GraphText) -> bool {
    forall|a: TupId, b: TupId| #[trigger]
        depends(g, a, b) && g.nodes.dom().contains(a) ==> g.nodes.dom().contains(b)
}

/// A graph whose nodes can be ordered has no cycles.
pub proof fn order_means_no_cycles(g: GraphText, w: Seq<TupId>, p: Seq<TupId>)
    requires
        is_topological(g, w),
    ensures
        !is_cycle(g, p),
{
    if is_cycle(g, p) {
        lemma_places_increase(g, w, p, p.len() - 1);
    }
}

proof fn lemma_places_increase(g: GraphText, w: Seq<TupId>, p: Seq<TupId>, n: int)
    requires
        is_topological(g, w),
        is_cycle(g, p),
        0 <= n < p.len(),
    ensures
        w.index_of(p[0]) + n <= w.index_of(p[n]),
    decreases n,
{
    if n > 0 {
        lemma_places_increase(g, w, p, n - 1);
        let a = p[n];
        let b = p[n - 1];
        assert(depends(g, p[n - 1 + 1], p[n - 1]));
        assert(g.nodes.dom().contains(p[n]) && g.nodes.dom().contains(p[n - 1]));
        assert(w.contains(a) && w.contains(b));
        let j = w.index_of(a);
        let k = choose|k: int| 0 <= k < (g.incoming)(a).len() && (#[trigger] (g.incoming)(a)[k]).0
            == b;
        assert(w[j] == a);
        assert(sources_before(g, w, j));
        assert(w.take(j).contains((g.incoming)(w[j])[k].0));
        let i = choose|i: int| 0 <= i < w.take(j).len() && w.take(j)[i] == b;
        assert(w[i] == b);
        assert(w.index_of(b) == i);
    }
}

/// As long as a node of a graph without cycles is not finished, and none is
/// being processed, a node is ready. The root counts only where something depends
/// on it.
pub proof fn something_is_ready(g: GraphText, w: Seq<TupId>, x: TupId) -> (r: TupId)
    requires
        is_topological(g, w),
        forall|y: TupId| #[trigger]
            g.nodes.dom().contains(y) && y != root_id() ==> g.nodes[y].state
                == NodeState::Initialized || g.nodes[y].state == NodeState::Finished,
        forall|y: TupId| #[trigger] depends(g, y, root_id()) ==> is_finished(g, root_id()),
        g.nodes.dom().contains(x),
        x != root_id(),
        g.nodes[x].state != NodeState::Finished,
    ensures
        is_ready(g, r),
    decreases w.index_of(x),
{
    assert(w.contains(x));
    let j = w.index_of(x);
    if is_ready(g, x) {
        x
    } else {
        let i = choose|i: int|
            0 <= i < (g.incoming)(x).len() && !is_finished(g, (#[trigger] (g.incoming)(x)[i]).0);
        let y = (g.incoming)(x)[i].0;
        assert(depends(g, x, y));
        assert(sources_before(g, w, j));
        assert(w.take(j).contains((g.incoming)(w[j])[i].0));
        let k = choose|k: int| 0 <= k < w.take(j).len() && w.take(j)[k] == y;
        assert(w[k] == y);
        assert(w.index_of(y) == k);
        something_is_ready(g, w, y)
    }
}

/// A set of nodes of which each depends on another one of the set.
pub open spec fn headless(g: GraphText, s: Set<TupId>) -> bool {
    forall|x: TupId| #[trigger]
        s.contains(x) ==> g.nodes.dom().contains(x) && exists|y: TupId|
            s.contains(y) && #[trigger] depends(g, x, y)
}

/// A node of the set that a node depends on.
spec fn back(g: GraphText, s: Set<TupId>, x: TupId) -> TupId {
    choose|y: TupId| s.contains(y) && #[trigger] depends(g, x, y)
}

/// A walk back along dependencies within a set.
spec fn walk_back(g: GraphText, s: Set<TupId>, x: TupId, n: nat) -> Seq<TupId>
    decreases n,
{
    if n == 0 {
        seq![x]
    } else {
        let w = walk_back(g, s, x, (n - 1) as nat);
        w.push(back(g, s, w.last()))
    }
}

proof fn lemma_walk_back(g: GraphText, s: Set<TupId>, x: TupId, n: nat)
    requires
        headless(g, s),
        s.contains(x),
    ensures
        walk_back(g, s, x, n).len() == n + 1,
        forall|i: int|
            0 <= i < walk_back(g, s, x, n).len() ==> s.contains(
                #[trigger] walk_back(g, s, x, n)[i],
            ),
        forall|i: int|
            0 <= i < n ==> depends(
                g,
                #[trigger] walk_back(g, s, x, n)[i],
                walk_back(g, s, x, n)[i + 1],
            ),
    decreases n,
{
    if n > 0 {
        lemma_walk_back(g, s, x, (n - 1) as nat);
        let w = walk_back(g, s, x, (n - 1) as nat);
        let r = walk_back(g, s, x, n);
        let last = w[w.len() - 1];
        assert(s.contains(last));
        assert(exists|y: TupId| s.contains(y) && #[trigger] depends(g, last, y));
        assert forall|i: int| 0 <= i < r.len() implies s.contains(#[trigger] r[i]) by {
            if i < w.len() {
                assert(r[i] == w[i]);
            }
        }
        assert forall|i: int| 0 <= i < n implies depends(g, #[trigger] r[i], r[i + 1]) by {
            if i < n - 1 {
                assert(r[i] == w[i] && r[i + 1] == w[i + 1]);
            } else {
                assert(r[i] == last);
            }
        }
    }
}

/// In a set of nodes of which each depends on another one of the set there is a
/// cycle.
pub proof fn headless_sets_hold_cycles(g: GraphText, s: Set<TupId>, x: TupId) -> (p: Seq<TupId>)
    requires
        headless(g, s),
        s.contains(x),
    ensures
        is_cycle(g, p),
{
    ids_are_finite(s);
    let n = s.len();
    lemma_walk_back(g, s, x, n);
    let w = walk_back(g, s, x, n);
    if w.no_duplicates() {
        w.unique_seq_to_set();
        assert(w.to_set().subset_of(s));
        vstd::set_lib::lemma_len_subset(w.to_set(), s);
        assert(false);
    }
    let (i, j) = choose|i: int, j: int|
        0 <= i < w.len() && 0 <= j < w.len() && i != j && #[trigger] w[i] == #[trigger] w[j];
    let a = if i < j { i } else { j };
    let b = if i < j { j } else { i };
    let p = Seq::new((b - a + 1) as nat, |k: int| w[b - k]);
    assert(p.last() == w[a]);
    assert forall|k: int| 0 <= k < p.len() - 1 implies depends(g, #[trigger] p[k + 1], p[k]) by {
        let m = b - k - 1;
        assert(depends(g, w[m], w[m + 1]));
    }
    assert forall|k: int| 0 <= k < p.len() implies g.nodes.dom().contains(#[trigger] p[k]) by {
        assert(s.contains(w[b - k]));
    }
    p
}

/// A graph with edges between nodes only has an order or a cycle.
pub proof fn no_order_means_cycle(g: GraphText, w: Seq<TupId>)
    requires
        edges_between_nodes(g),
        partial_order(g, w),
    ensures
        (exists|v: Seq<TupId>| is_topological(g, v)) || (exists|p: Seq<TupId>| is_cycle(g, p)),
    decreases g.nodes.dom().len() - w.len(),
{
    lemma_complete(g, w);
    if is_topological(g, w) {
    } else {
        let dom = g.nodes.dom();
        let rest = Set::new(|x: TupId| dom.contains(x) && !w.contains(x));
        let x0 = choose|x: TupId| #[trigger] dom.contains(x) && !w.contains(x);
        assert(rest.contains(x0));
        if headless(g, rest) {
            let p = headless_sets_hold_cycles(g, rest, x0);
        } else {
            let x = choose|x: TupId| #[trigger]
                rest.contains(x) && !(g.nodes.dom().contains(x) && exists|y: TupId|
                    rest.contains(y) && #[trigger] depends(g, x, y));
            let v = w.push(x);
            assert forall|j: int| 0 <= j < v.len() implies #[trigger] sources_before(g, v, j) by {
                if j < w.len() {
                    assert(sources_before(g, w, j));
                    assert(v.take(j) =~= w.take(j));
                } else {
                    assert(v.take(j) =~= w);
                    assert forall|k: int| 0 <= k < (g.incoming)(x).len() implies w.contains(
                        (#[trigger] (g.incoming)(x)[k]).0,
                    ) by {
                        let y = (g.incoming)(x)[k].0;
                        assert(depends(g, x, y));
                        if !w.contains(y) {
                            assert(rest.contains(y));
                        }
                    }
                }
            }
            assert(partial_order(g, v)) by {
                assert(v.no_duplicates()) by {
                    assert forall|i: int, j: int|
                        0 <= i < v.len() && 0 <= j < v.len() && i != j implies v[i] != v[j] by {
                        if i == w.len() {
                            assert(w.contains(w[j]));
                        } else if j == w.len() {
                            assert(w.contains(w[i]));
                        }
                    }
                }
            }
            lemma_complete(g, v);
            no_order_means_cycle(g, v);
        }
    }
}

impl Graph {
    fn loose_nodes(&self) -> (r: Vec<TupId>)
        ensures
            forall|i: int| 0 <= i < r@.len() ==> is_loose(self@, #[trigger] r@[i]),
            r@.len() == 0 ==> forall|x: TupId| !#[trigger] is_loose(self@, x),
    {
        let ids = self.node_ids();
        let mut out: Vec<TupId> = Vec::new();
        let mut i: usize = 0;
        while i < ids.len()
            invariant
                i <= ids@.len(),
                lists(ids@, self@.nodes.dom()),
                forall|j: int| 0 <= j < out@.len() ==> is_loose(self@, #[trigger] out@[j]),
                out@.len() == 0 ==> forall|j: int|
                    0 <= j < i ==> !is_loose(self@, #[trigger] ids@[j]),
            decreases ids.len() - i,
        {
            let id = ids[i];
            assert(ids@.contains(ids@[i as int]));
            if id != self.root() && (self.incoming_edges(id).len() == 0 || self.outgoing_edges(
                id,
            ).len() == 0) {
                out.push(id);
            }
            i += 1;
        }
        proof {
            if out@.len() == 0 {
                assert forall|x: TupId| !#[trigger] is_loose(self@, x) by {
                    if self@.nodes.dom().contains(x) {
                        assert(ids@.contains(x));
                        let j = choose|j: int| 0 <= j < ids@.len() && ids@[j] == x;
                        assert(!is_loose(self@, ids@[j]));
                    }
                }
            }
        }
        out
    }

    /// Trims the graph: removes nodes without edges that leave them or without
    /// edges that arrive at them, as long as there are any.
    ///
    /// What remains are cycles and what lies between them.
    pub fn trim(&mut self)
        ensures
            final(self)@.mirrored(),
            final(self)@ == old(self)@.without(trimmed_away(old(self)@)),
    {
        self.edges_are_mirrored();
        let ghost g = self@;
        let ghost mut gone: Set<TupId> = Set::empty();
        proof {
            lemma_without_none(g);
        }
        loop
            invariant
                g == old(self)@,
                self@.mirrored(),
                self@ == g.without(gone),
                forall|y: TupId| #[trigger]
                    gone.contains(y) ==> g.nodes.dom().contains(y) && y != root_id() && !in_core(
                        g,
                        y,
                    ),
            decreases self@.nodes.dom().len(),
        {
            let loose = self.loose_nodes();
            if loose.len() == 0 {
                proof {
                    lemma_rest_is_core(g, gone);
                }
                return;
            }
            let ghost before = self@.nodes.dom();
            let ghost first = loose@[0];
            proof {
                assert(is_loose(self@, loose@[0]));
                assert forall|i: int| 0 <= i < loose@.len() implies g.nodes.dom().contains(
                    #[trigger] loose@[i],
                ) && loose@[i] != root_id() && !in_core(g, loose@[i]) by {
                    let x = loose@[i];
                    assert(is_loose(self@, x));
                    if in_core(g, x) {
                        let s = choose|s: Set<TupId>| is_core(g, s) && s.contains(x);
                        lemma_core_survives(g, gone, s, x);
                    }
                }
            }
            let mut i: usize = 0;
            while i < loose.len()
                invariant
                    i <= loose@.len(),
                    loose@.len() > 0,
                    first == loose@[0],
                    before.contains(first),
                    self@.mirrored(),
                    self@ == g.without(gone),
                    self@.nodes.dom().subset_of(before),
                    i > 0 ==> !self@.nodes.dom().contains(first),
                    forall|y: TupId| #[trigger]
                        gone.contains(y) ==> g.nodes.dom().contains(y) && y != root_id()
                            && !in_core(g, y),
                    forall|i: int|
                        0 <= i < loose@.len() ==> g.nodes.dom().contains(#[trigger] loose@[i])
                            && loose@[i] != root_id() && !in_core(g, loose@[i]),
                decreases loose.len() - i,
            {
                let id = loose[i];
                self.remove_node(id);
                proof {
                    removal_in_steps(g, gone, set![id]);
                    gone = gone.union(set![id]);
                }
                i += 1;
            }
            proof {
                ids_are_finite(before);
                ids_are_finite(self@.nodes.dom());
                assert(self@.nodes.dom().subset_of(before.remove(first)));
                vstd::set_lib::lemma_len_subset(self@.nodes.dom(), before.remove(first));
            }
        }
    }

    fn remove_nodes(&mut self, ids: &Vec<TupId>)
        ensures
            final(self)@.mirrored(),
            final(self)@ == old(self)@.without(ids@.to_set()),
    {
        self.edges_are_mirrored();
        let ghost g = self@;
        let mut i: usize = 0;
        proof {
            lemma_without_none(g);
            assert(ids@.take(0).to_set() =~= Set::empty());
        }
        while i < ids.len()
            invariant
                i <= ids@.len(),
                self@.mirrored(),
                self@ == g.without(ids@.take(i as int).to_set()),
            decreases ids.len() - i,
        {
            let id = ids[i];
            self.remove_node(id);
            proof {
                let pre = ids@.take(i as int);
                let next = ids@.take(i + 1);
                let a = pre.to_set();
                removal_in_steps(g, a, set![id]);
                assert(a.union(set![id]) =~= next.to_set()) by {
                    assert forall|x: TupId| a.union(set![id]).contains(x) <==> next.to_set().contains(
                        x,
                    ) by {
                        if a.contains(x) {
                            let j = choose|j: int| 0 <= j < pre.len() && pre[j] == x;
                            assert(next[j] == x);
                        }
                        assert(next[i as int] == id);
                        if next.to_set().contains(x) {
                            let j = choose|j: int| 0 <= j < next.len() && next[j] == x;
                            if j < i {
                                assert(pre[j] == x);
                            }
                        }
                    }
                }
            }
            i += 1;
        }
        assert(ids@.take(ids@.len() as int) =~= ids@);
    }

    /// Pushes the nodes that links name and that are not marked.
    fn push_unmarked(
        links: &Vec<Link>,
        marked: &OrdMap<TupId, ()>,
        stack: &mut Vec<TupId>,
    )
        ensures
            forall|x: TupId| old(stack)@.contains(x) ==> #[trigger] final(stack)@.contains(x),
            forall|i: int|
                0 <= i < links@.len() ==> marked@.dom().contains((#[trigger] links@[i]).0)
                    || final(stack)@.contains(links@[i].0),
            forall|x: TupId| #[trigger]
                final(stack)@.contains(x) ==> old(stack)@.contains(x) || exists|i: int|
                    0 <= i < links@.len() && (#[trigger] links@[i]).0 == x,
    {
        let mut i: usize = 0;
        while i < links.len()
            invariant
                i <= links@.len(),
                forall|x: TupId| old(stack)@.contains(x) ==> #[trigger] stack@.contains(x),
                forall|j: int|
                    0 <= j < i ==> marked@.dom().contains((#[trigger] links@[j]).0)
                        || stack@.contains(links@[j].0),
                forall|x: TupId| #[trigger]
                    stack@.contains(x) ==> old(stack)@.contains(x) || exists|j: int|
                        0 <= j < links@.len() && (#[trigger] links@[j]).0 == x,
            decreases links.len() - i,
        {
            let dep = links[i].0;
            let ghost s = stack@;
            if !marked.contains(&dep) {
                stack.push(dep);
                proof {
                    assert(stack@[s.len() as int] == dep);
                    assert forall|x: TupId| s.contains(x) implies #[trigger] stack@.contains(x) by {
                        let k = choose|k: int| 0 <= k < s.len() && s[k] == x;
                        assert(stack@[k] == x);
                    }
                    assert forall|x: TupId| #[trigger] stack@.contains(x) implies s.contains(x)
                        || x == dep by {
                        let k = choose|k: int| 0 <= k < stack@.len() && stack@[k] == x;
                        if k < s.len() {
                            assert(s[k] == x);
                        }
                    }
                    assert(links@[i as int].0 == dep);
                }
            }
            i += 1;
        }
    }

    /// Marks what some targets need.
    fn mark_needed(&self, targets: &[TupId]) -> (r: OrdMap<TupId, ()>)
        ensures
            forall|x: TupId| #[trigger]
                r@.dom().contains(x) <==> chained(self@, targets@, x),
    {
        let ghost g = self@;
        let ghost t = targets@;
        let mut marked: OrdMap<TupId, ()> = OrdMap::new();
        let mut stack: Vec<TupId> = Vec::new();
        let mut i: usize = 0;
        while i < targets.len()
            invariant
                i <= targets@.len(),
                stack@ =~= targets@.take(i as int),
            decreases targets.len() - i,
        {
            stack.push(targets[i]);
            i += 1;
        }
        proof {
            assert(targets@.take(targets@.len() as int) =~= targets@);
            assert forall|x: TupId| #[trigger] stack@.contains(x) implies chained(g, t, x) by {
                assert(need_chain(g, t, seq![x]));
                assert(seq![x].last() == x);
            }
            assert forall|k: int| 0 <= k < t.len() implies stack@.contains(#[trigger] t[k]) by {
                assert(stack@[k] == t[k]);
            }
        }
        while stack.len() > 0
            invariant
                g == self@,
                t == targets@,
                forall|x: TupId| #[trigger] stack@.contains(x) ==> chained(g, t, x),
                forall|x: TupId| #[trigger] marked@.dom().contains(x) ==> chained(g, t, x),
                forall|k: int|
                    0 <= k < t.len() ==> marked@.dom().contains(#[trigger] t[k])
                        || stack@.contains(t[k]),
                forall|a: TupId, b: TupId|
                    marked@.dom().contains(a) && #[trigger] needs(g, a, b) ==> marked@.dom().contains(
                        b,
                    ) || stack@.contains(b),
            decreases 0x1_0000_0000_0000_0000 - marked@.dom().len(), stack@.len(),
        {
            let ghost s = stack@;
            let ghost m = marked@.dom();
            let id = stack.pop().unwrap();
            proof {
                assert(s[s.len() - 1] == id);
                assert(s.contains(id));
                assert forall|x: TupId| s.contains(x) implies x == id || #[trigger] stack@.contains(
                    x,
                ) by {
                    let k = choose|k: int| 0 <= k < s.len() && s[k] == x;
                    if k < s.len() - 1 {
                        assert(stack@[k] == x);
                    }
                }
                assert forall|x: TupId| #[trigger] stack@.contains(x) implies s.contains(x) by {
                    let k = choose|k: int| 0 <= k < stack@.len() && stack@[k] == x;
                    assert(s[k] == x);
                }
            }
            if !marked.contains(&id) {
                marked.insert(id, ());
                let ghost s1 = stack@;
                let ins = self.incoming_edges(id);
                Self::push_unmarked(&ins, &marked, &mut stack);
                let ghost s2 = stack@;
                let is_cmd = match self.find_node(id) {
                    Some(n) => n.node_type == NodeType::Cmd,
                    None => false,
                };
                if is_cmd {
                    let outs = self.outgoing_edges(id);
                    Self::push_unmarked(&outs, &marked, &mut stack);
                }
                proof {
                    assert forall|x: TupId| s1.contains(x) implies #[trigger] stack@.contains(
                        x,
                    ) by {
                        assert(s2.contains(x));
                    }
                    assert forall|b: TupId| #[trigger] needs(g, id, b) implies marked@.dom().contains(
                        b,
                    ) || stack@.contains(b) by {
                        if exists|k: int|
                            0 <= k < (g.incoming)(id).len() && (#[trigger] (g.incoming)(id)[k]).0
                                == b {
                            let k = choose|k: int|
                                0 <= k < (g.incoming)(id).len() && (#[trigger] (g.incoming)(
                                    id,
                                )[k]).0 == b;
                            assert(ins@[k].0 == b);
                            assert(marked@.dom().contains(b) || s2.contains(b));
                        }
                    }
                    assert forall|x: TupId| #[trigger] stack@.contains(x) implies chained(
                        g,
                        t,
                        x,
                    ) by {
                        if !s1.contains(x) {
                            assert(needs(g, id, x)) by {
                                if s2.contains(x) {
                                    let k = choose|k: int|
                                        0 <= k < ins@.len() && (#[trigger] ins@[k]).0 == x;
                                    assert((g.incoming)(id)[k].0 == x);
                                } else {
                                    let k = choose|k: int|
                                        0 <= k < (g.outgoing)(id).len() && (#[trigger] (
                                        g.outgoing)(id)[k]).0 == x;
                                }
                            }
                            lemma_chain_extends(g, t, id, x);
                        }
                    }
                    assert forall|a: TupId, b: TupId|
                        marked@.dom().contains(a) && #[trigger] needs(g, a, b) implies marked@.dom().contains(
                        b,
                    ) || stack@.contains(b) by {
                        if a != id {
                            assert(m.contains(a));
                            assert(m.contains(b) || s.contains(b));
                            if s.contains(b) && b != id {
                                assert(s1.contains(b));
                            }
                        }
                    }
                    assert forall|k: int| 0 <= k < t.len() implies marked@.dom().contains(
                        #[trigger] t[k],
                    ) || stack@.contains(t[k]) by {
                        if s.contains(t[k]) && t[k] != id {
                            assert(s1.contains(t[k]));
                        }
                    }
                    ids_are_finite(m);
                    ids_are_finite(marked@.dom());
                    assert(marked@.dom() =~= m.insert(id));
                }
            }
        }
        proof {
            assert forall|x: TupId| #[trigger] chained(g, t, x) implies marked@.dom().contains(
                x,
            ) by {
                let p = choose|p: Seq<TupId>| #[trigger] need_chain(g, t, p) && p.last() == x;
                assert forall|k: int| 0 <= k < t.len() implies marked@.dom().contains(
                    #[trigger] t[k],
                ) by {
                    assert(!stack@.contains(t[k]));
                }
                assert forall|a: TupId, b: TupId|
                    marked@.dom().contains(a) && #[trigger] needs(g, a, b) implies marked@.dom().contains(
                    b,
                ) by {
                    assert(!stack@.contains(b));
                }
                lemma_closed_keeps_chain(g, t, marked@.dom(), p);
            }
        }
        marked
    }

    /// Prunes the graph to some targets and what they need: the nodes that they
    /// depend on, and all outputs of the commands among these.
    ///
    /// Gives the number of nodes that were removed. Without targets nothing is.
    pub fn prune(&mut self, targets: &[TupId]) -> (r: usize)
        ensures
            final(self)@.mirrored(),
            targets@.len() == 0 ==> r == 0 && final(self)@ == old(self)@,
            targets@.len() > 0 ==> r == pruned_away(old(self)@, targets@).len() && final(self)@
                == old(self)@.without(pruned_away(old(self)@, targets@)),
    {
        self.edges_are_mirrored();
        if targets.len() == 0 {
            return 0;
        }
        let ghost g = self@;
        let marked = self.mark_needed(targets);
        let ids = self.node_ids();
        let mut gone: Vec<TupId> = Vec::new();
        let mut i: usize = 0;
        while i < ids.len()
            invariant
                i <= ids@.len(),
                g == self@,
                lists(ids@, g.nodes.dom()),
                forall|x: TupId| #[trigger]
                    marked@.dom().contains(x) <==> chained(g, targets@, x),
                gone@.no_duplicates(),
                forall|j: int|
                    0 <= j < gone@.len() ==> ids@.take(i as int).contains(#[trigger] gone@[j])
                        && !kept(g, targets@, gone@[j]),
                forall|j: int|
                    0 <= j < i && !kept(g, targets@, #[trigger] ids@[j]) ==> gone@.contains(
                        ids@[j],
                    ),
            decreases ids.len() - i,
        {
            let id = ids[i];
            let ghost before = gone@;
            assert(marked@.dom().contains(id) <==> chained(g, targets@, id));
            proof {
                let pre = ids@.take(i as int);
                let next = ids@.take(i + 1);
                assert forall|x: TupId| pre.contains(x) implies #[trigger] next.contains(x) by {
                    let j = choose|j: int| 0 <= j < pre.len() && pre[j] == x;
                    assert(next[j] == x);
                }
                assert(next[i as int] == id);
            }
            if id != self.root() && !marked.contains(&id) {
                gone.push(id);
                proof {
                    assert forall|j: int| 0 <= j < before.len() implies before[j] != id by {
                        assert(ids@.take(i as int).contains(before[j]));
                        let k = choose|k: int|
                            0 <= k < ids@.take(i as int).len() && ids@.take(i as int)[k]
                                == before[j];
                        assert(ids@[k].0 < ids@[i as int].0);
                    }
                    assert(gone@[before.len() as int] == id);
                    assert forall|x: TupId| before.contains(x) implies #[trigger] gone@.contains(
                        x,
                    ) by {
                        let k = choose|k: int| 0 <= k < before.len() && before[k] == x;
                        assert(gone@[k] == x);
                    }
                }
            }
            i += 1;
        }
        proof {
            assert(ids@.take(ids@.len() as int) =~= ids@);
            assert(gone@.to_set() =~= pruned_away(g, targets@)) by {
                assert forall|x: TupId| gone@.to_set().contains(x) <==> pruned_away(
                    g,
                    targets@,
                ).contains(x) by {
                    if gone@.contains(x) {
                        let j = choose|j: int| 0 <= j < gone@.len() && gone@[j] == x;
                        assert(ids@.contains(gone@[j]));
                    }
                    if pruned_away(g, targets@).contains(x) {
                        assert(ids@.contains(x));
                        let j = choose|j: int| 0 <= j < ids@.len() && ids@[j] == x;
                        assert(!kept(g, targets@, ids@[j]));
                    }
                }
            }
            gone@.unique_seq_to_set();
        }
        self.remove_nodes(&gone);
        gone.len()
    }

    /// The nodes that depend on nothing, in increasing order.
    pub fn leaf_nodes(&self) -> (r: Vec<TupId>)
        ensures
            r@ == ascending(
                Set::new(
                    |x: TupId|
                        self@.nodes.dom().contains(x) && x != root_id() && (self@.incoming)(x).len()
                            == 0,
                ),
            ),
    {
        let ghost want = Set::new(
            |x: TupId|
                self@.nodes.dom().contains(x) && x != root_id() && (self@.incoming)(x).len() == 0,
        );
        let ids = self.node_ids();
        let mut out: Vec<TupId> = Vec::new();
        let mut i: usize = 0;
        while i < ids.len()
            invariant
                i <= ids@.len(),
                lists(ids@, self@.nodes.dom()),
                selected(ids@, out@, want, i as int),
                want == Set::new(
                    |x: TupId|
                        self@.nodes.dom().contains(x) && x != root_id() && (self@.incoming)(x).len()
                            == 0,
                ),
            decreases ids.len() - i,
        {
            let id = ids[i];
            assert(ids@.contains(ids@[i as int]));
            proof {
                lemma_selected_step(ids@, out@, want, i as int);
            }
            if id != self.root() && self.incoming_edges(id).len() == 0 {
                out.push(id);
            }
            i += 1;
        }
        proof {
            lemma_selected_all(ids@, out@, want, self@.nodes.dom());
        }
        out
    }

    /// The nodes that can be processed: not begun, and all that they depend on
    /// finished. In increasing order.
    pub fn ready_nodes(&self) -> (r: Vec<TupId>)
        ensures
            r@ == ascending(Set::new(|x: TupId| is_ready(self@, x))),
    {
        let ghost want = Set::new(|x: TupId| is_ready(self@, x));
        let ids = self.node_ids();
        let mut out: Vec<TupId> = Vec::new();
        let mut i: usize = 0;
        while i < ids.len()
            invariant
                i <= ids@.len(),
                lists(ids@, self@.nodes.dom()),
                selected(ids@, out@, want, i as int),
                want == Set::new(|x: TupId| is_ready(self@, x)),
            decreases ids.len() - i,
        {
            let id = ids[i];
            assert(ids@.contains(ids@[i as int]));
            proof {
                lemma_selected_step(ids@, out@, want, i as int);
            }
            if self.node_is_ready(id) {
                out.push(id);
            }
            i += 1;
        }
        proof {
            lemma_selected_all(ids@, out@, want, self@.nodes.dom());
        }
        out
    }

    fn node_is_ready(&self, id: TupId) -> (r: bool)
        ensures
            r == is_ready(self@, id),
    {
        match self.find_node(id) {
            Some(n) => {
                if id == self.root() || n.state != NodeState::Initialized {
                    return false;
                }
            },
            None => {
                return false;
            },
        }
        let links = self.incoming_edges(id);
        let mut i: usize = 0;
        while i < links.len()
            invariant
                i <= links@.len(),
                links@ == (self@.incoming)(id),
                forall|j: int| 0 <= j < i ==> is_finished(self@, (#[trigger] links@[j]).0),
            decreases links.len() - i,
        {
            let done = match self.find_node(links[i].0) {
                Some(n) => n.state == NodeState::Finished,
                None => true,
            };
            if !done {
                assert(!is_finished(self@, (self@.incoming)(id)[i as int].0));
                return false;
            }
            i += 1;
        }
        true
    }

    /// Sorts the nodes so that each stands after all that it depends on.
    ///
    /// Gives nothing where there is no such order: where there is a cycle, or
    /// an edge from something that is no node.
    pub fn topological_sort(&self) -> (r: Option<Vec<TupId>>)
        ensures
            match r {
                Some(w) => w@ == process_order(self@) && is_topological(self@, w@),
                None => forall|w: Seq<TupId>| !is_topological(self@, w),
            },
    {
        self.edges_are_mirrored();
        let ghost g = self@;
        let ids = self.node_ids();
        let mut deg: OrdMap<TupId, usize> = OrdMap::new();
        let mut order: Vec<TupId> = Vec::new();
        let mut i: usize = 0;
        let ghost none = Set::<TupId>::empty();
        while i < ids.len()
            invariant
                i <= ids@.len(),
                g == self@,
                none == Set::<TupId>::empty(),
                lists(ids@, g.nodes.dom()),
                forall|x: TupId| #[trigger]
                    deg@.dom().contains(x) <==> ids@.take(i as int).contains(x),
                forall|x: TupId| #[trigger]
                    deg@.dom().contains(x) ==> deg@[x] == left(g, none, x) && (order@.contains(x)
                        <==> deg@[x] == 0),
                order@.no_duplicates(),
                increasing(order@),
                forall|j: int|
                    0 <= j < order@.len() ==> deg@.dom().contains(#[trigger] order@[j]) && (
                    g.incoming)(order@[j]).len() == 0,
            decreases ids.len() - i,
        {
            let id = ids[i];
            let ghost before = order@;
            let ghost d = deg@;
            let n = self.incoming_edges(id).len();
            proof {
                let a = ids@.take(i as int);
                let b = ids@.take(i + 1);
                assert(b =~= a.push(id));
                assert forall|x: TupId| #[trigger] b.contains(x) <==> a.contains(x) || x == id by {
                    if a.contains(x) {
                        let j = choose|j: int| 0 <= j < a.len() && a[j] == x;
                        assert(b[j] == x);
                    }
                    assert(b[i as int] == id);
                }
                assert(!a.contains(id)) by {
                    if a.contains(id) {
                        let j = choose|j: int| 0 <= j < a.len() && a[j] == id;
                        assert(ids@[j].0 < ids@[i as int].0);
                    }
                }
                assert(!d.dom().contains(id));
                lemma_none_removed((g.incoming)(id));
            }
            deg.insert(id, n);
            if n == 0 {
                order.push(id);
                proof {
                    assert(order@[before.len() as int] == id);
                    assert forall|x: TupId| #[trigger] order@.contains(x) <==> before.contains(x)
                        || x == id by {
                        if before.contains(x) {
                            let k = choose|k: int| 0 <= k < before.len() && before[k] == x;
                            assert(order@[k] == x);
                        }
                    }
                    assert forall|a: int, b: int| 0 <= a < b < order@.len() implies (
                    #[trigger] order@[a]).0 < (#[trigger] order@[b]).0 by {
                        if b == before.len() {
                            assert(d.dom().contains(before[a]));
                            let j = choose|j: int|
                                0 <= j < ids@.take(i as int).len() && ids@.take(i as int)[j]
                                    == before[a];
                            assert(ids@[j].0 < ids@[i as int].0);
                        }
                    }
                }
            }
            assert(!before.contains(id)) by {
                if before.contains(id) {
                    let k = choose|k: int| 0 <= k < before.len() && before[k] == id;
                    assert(d.dom().contains(before[k]));
                }
            }
            i += 1;
        }
        proof {
            assert(ids@.take(ids@.len() as int) =~= ids@);
            assert(deg@.dom() =~= g.nodes.dom());
            assert forall|j: int| 0 <= j < order@.len() implies #[trigger] sources_before(
                g,
                order@,
                j,
            ) by {
                assert(deg@.dom().contains(order@[j]));
            }
            assert(order@.take(0).to_set() =~= none);
            assert(lists(order@, heads(g))) by {
                assert forall|x: TupId| order@.contains(x) <==> heads(g).contains(x) by {
                    lemma_none_removed((g.incoming)(x));
                    if heads(g).contains(x) {
                        assert(deg@.dom().contains(x));
                    }
                    if order@.contains(x) {
                        let j = choose|j: int| 0 <= j < order@.len() && order@[j] == x;
                        assert(deg@.dom().contains(order@[j]));
                    }
                }
            }
            ascending_is_unique(order@, heads(g));
        }
        let ghost all = g.nodes.dom().len();
        let mut head: usize = 0;
        while head < order.len()
            invariant
                head <= order@.len(),
                head <= all,
                all == g.nodes.dom().len(),
                process_order(g) == queue_after(g, order@, head as nat, (all - head) as nat),
                g == self@,
                g.mirrored(),
                building(g, order@, deg@),
                forall|x: TupId| #[trigger]
                    deg@.dom().contains(x) ==> deg@[x] == left(
                        g,
                        order@.take(head as int).to_set(),
                        x,
                    ),
            decreases g.nodes.dom().len() - head,
        {
            let id = order[head];
            proof {
                lemma_complete(g, order@);
            }
            self.release(id, head, &mut order, &mut deg);
            head += 1;
            proof {
                lemma_complete(g, order@);
            }
        }
        proof {
            assert(order@.take(order@.len() as int) =~= order@);
            lemma_complete(g, order@);
        }
        if order.len() == ids.len() {
            Some(order)
        } else {
            proof {
                assert forall|w: Seq<TupId>| !is_topological(g, w) by {
                    if is_topological(g, w) {
                        lemma_stuck(g, order@, deg@, w, w.len() as int);
                        assert forall|x: TupId| #[trigger] g.nodes.dom().contains(x) implies order@.contains(
                            x,
                        ) by {
                            assert(w.contains(x));
                            let j = choose|j: int| 0 <= j < w.len() && w[j] == x;
                            assert(order@.contains(w[j]));
                        }
                        assert(is_topological(g, order@));
                    }
                }
            }
            None
        }
    }

    /// Counts down the edges that leave a node, and puts the nodes to which no
    /// edges are left at the end of the list.
    fn release(
        &self,
        id: TupId,
        head: usize,
        order: &mut Vec<TupId>,
        deg: &mut OrdMap<TupId, usize>,
    )
        requires
            self@.mirrored(),
            head < old(order)@.len(),
            old(order)@[head as int] == id,
            building(self@, old(order)@, old(deg)@),
            forall|x: TupId| #[trigger]
                old(deg)@.dom().contains(x) ==> old(deg)@[x] == left(
                    self@,
                    old(order)@.take(head as int).to_set(),
                    x,
                ),
        ensures
            head < final(order)@.len(),
            final(order)@ == old(order)@ + released(
                self@,
                old(order)@.take(head as int).to_set(),
                (self@.outgoing)(id),
                (self@.outgoing)(id).len(),
            ),
            building(self@, final(order)@, final(deg)@),
            forall|x: TupId| #[trigger]
                final(deg)@.dom().contains(x) ==> final(deg)@[x] == left(
                    self@,
                    final(order)@.take(head + 1).to_set(),
                    x,
                ),
    {
        let ghost g = self@;
        let ghost done = order@.take(head as int).to_set();
        let links = self.outgoing_edges(id);
        let mut k: usize = 0;
        proof {
            assert(!done.contains(id)) by {
                if done.contains(id) {
                    let j = choose|j: int|
                        0 <= j < order@.take(head as int).len() && order@.take(head as int)[j]
                            == id;
                    assert(order@[j] == order@[head as int]);
                }
            }
            assert(links@.take(0) =~= Seq::empty());
            assert(order@ + released(g, done, links@, 0) =~= order@);
        }
        while k < links.len()
            invariant
                k <= links@.len(),
                g == self@,
                g.mirrored(),
                links@ == (g.outgoing)(id),
                order@ == old(order)@ + released(g, done, links@, k as nat),
                done == old(order)@.take(head as int).to_set(),
                head < old(order)@.len(),
                head < order@.len(),
                order@[head as int] == id,
                done == order@.take(head as int).to_set(),
                !done.contains(id),
                building(g, order@, deg@),
                forall|x: TupId| #[trigger]
                    deg@.dom().contains(x) ==> deg@[x] + occurrences(links@.take(k as int), x)
                        == left(g, done, x),
            decreases links.len() - k,
        {
            let dest = links[k].0;
            let ghost before = order@;
            let ghost d0 = deg@;
            proof {
                assert(links@.take(k + 1).drop_last() =~= links@.take(k as int));
                assert(links@.take(k + 1).last() == links@[k as int]);
                lemma_occurrences_take(links@, k + 1, dest);
                lemma_mirror_occurrences(g, id, dest);
                lemma_left_step((g.incoming)(dest), done, id);
            }
            if let Some(d) = deg.get(&dest) {
                let d: usize = *d;
                assert(d >= 1);
                deg.insert(dest, d - 1);
                if d == 1 {
                    order.push(dest);
                    proof {
                        assert(left(g, done.insert(id), dest) == 0);
                        lemma_none_left((g.incoming)(dest), done.insert(id));
                        assert(!before.contains(dest));
                        let n = before.len() as int;
                        assert(order@[n] == dest);
                        assert(order@.take(n) =~= before);
                        assert(order@.take(head as int) =~= before.take(head as int));
                        assert forall|x: TupId| #[trigger] order@.contains(x) <==> before.contains(
                            x,
                        ) || x == dest by {
                            if before.contains(x) {
                                let j = choose|j: int| 0 <= j < before.len() && before[j] == x;
                                assert(order@[j] == x);
                            }
                        }
                        assert forall|j: int| 0 <= j < order@.len() implies #[trigger] sources_before(
                            g,
                            order@,
                            j,
                        ) by {
                            if j < n {
                                assert(sources_before(g, before, j));
                                assert(order@.take(j) =~= before.take(j));
                            } else {
                                assert forall|m: int|
                                    0 <= m < (g.incoming)(dest).len() implies before.contains(
                                    (#[trigger] (g.incoming)(dest)[m]).0,
                                ) by {
                                    let y = (g.incoming)(dest)[m].0;
                                    assert(done.insert(id).contains(y));
                                    if y == id {
                                        assert(before[head as int] == y);
                                    } else {
                                        let j = choose|j: int|
                                            0 <= j < before.take(head as int).len()
                                                && before.take(head as int)[j] == y;
                                        assert(before[j] == y);
                                    }
                                }
                            }
                        }
                        assert(order@.no_duplicates()) by {
                            assert forall|a: int, b: int|
                                0 <= a < order@.len() && 0 <= b < order@.len() && a
                                    != b implies order@[a] != order@[b] by {
                                if a == n {
                                    assert(before.contains(before[b]));
                                } else if b == n {
                                    assert(before.contains(before[a]));
                                }
                            }
                        }
                    }
                }
                assert(deg@.dom() =~= d0.dom());
            }
            proof {
                let now = released(g, done, links@, k as nat);
                assert(old(order)@ + now.push(dest) =~= (old(order)@ + now).push(dest));
                assert(order@ == old(order)@ + released(g, done, links@, (k + 1) as nat));
            }
            k += 1;
        }
        proof {
            assert(links@.take(links@.len() as int) =~= links@);
            let pre = order@.take(head as int);
            let next = order@.take(head + 1);
            let done2 = next.to_set();
            assert(done2 =~= done.insert(id)) by {
                assert forall|x: TupId| done2.contains(x) <==> done.insert(id).contains(x) by {
                    if done2.contains(x) {
                        let j = choose|j: int| 0 <= j < next.len() && next[j] == x;
                        if j < head {
                            assert(pre[j] == x);
                        }
                    }
                    if done.contains(x) {
                        let j = choose|j: int| 0 <= j < pre.len() && pre[j] == x;
                        assert(next[j] == x);
                    }
                    assert(next[head as int] == id);
                }
            }
            assert forall|x: TupId| #[trigger] deg@.dom().contains(x) implies deg@[x] == left(
                g,
                done2,
                x,
            ) by {
                lemma_left_step((g.incoming)(x), done, id);
                lemma_mirror_occurrences(g, id, x);
            }
        }
    }

    /// Whether the nodes cannot be ordered.
    pub fn has_cycles(&self) -> (r: bool)
        ensures
            r == forall|w: Seq<TupId>| !is_topological(self@, w),
    {
        match self.topological_sort() {
            Some(w) => {
                assert(is_topological(self@, w@));
                false
            },
            None => true,
        }
    }
}

proof fn lemma_none_removed(s: Seq<Link>)
    ensures
        links_without(s, Set::empty()).len() == s.len(),
    decreases s.len(),
{
    if s.len() > 0 {
        lemma_none_removed(s.drop_last());
    }
}

/// Whether `out` holds those of the first `i` identifiers that are wanted, in
/// their order.
spec fn selected(ids: Seq<TupId>, out: Seq<TupId>, want: Set<TupId>, i: int) -> bool {
    &&& increasing(out)
    &&& forall|x: TupId| #[trigger]
        out.contains(x) <==> ids.take(i).contains(x) && want.contains(x)
}

proof fn lemma_selected_step(ids: Seq<TupId>, out: Seq<TupId>, want: Set<TupId>, i: int)
    requires
        increasing(ids),
        0 <= i < ids.len(),
        selected(ids, out, want, i),
    ensures
        want.contains(ids[i]) ==> selected(ids, out.push(ids[i]), want, i + 1),
        !want.contains(ids[i]) ==> selected(ids, out, want, i + 1),
{
    let id = ids[i];
    let a = ids.take(i);
    let b = ids.take(i + 1);
    assert forall|x: TupId| #[trigger] b.contains(x) <==> a.contains(x) || x == id by {
        if a.contains(x) {
            let j = choose|j: int| 0 <= j < a.len() && a[j] == x;
            assert(b[j] == x);
        }
        if b.contains(x) {
            let j = choose|j: int| 0 <= j < b.len() && b[j] == x;
            if j < i {
                assert(a[j] == x);
            }
        }
        assert(b[i] == id);
    }
    let n = out.push(id);
    assert forall|x: TupId| #[trigger] n.contains(x) <==> out.contains(x) || x == id by {
        if out.contains(x) {
            let j = choose|j: int| 0 <= j < out.len() && out[j] == x;
            assert(n[j] == x);
        }
        assert(n[out.len() as int] == id);
    }
    if want.contains(id) {
        assert forall|p: int, q: int| 0 <= p < q < n.len() implies (#[trigger] n[p]).0 < (
        #[trigger] n[q]).0 by {
            if q == out.len() {
                assert(out.contains(out[p]));
                assert(a.contains(out[p]));
                let j = choose|j: int| 0 <= j < a.len() && a[j] == out[p];
                assert(ids[j].0 < ids[i].0);
            }
        }
    }
}

proof fn lemma_selected_all(
    ids: Seq<TupId>,
    out: Seq<TupId>,
    want: Set<TupId>,
    dom: Set<TupId>,
)
    requires
        lists(ids, dom),
        want.subset_of(dom),
        selected(ids, out, want, ids.len() as int),
    ensures
        out == ascending(want),
{
    assert(ids.take(ids.len() as int) =~= ids);
    assert forall|x: TupId| out.contains(x) <==> want.contains(x) by {
        if want.contains(x) {
            assert(ids.contains(x));
        }
    }
    ascending_is_unique(out, want);
}

} // verus!
