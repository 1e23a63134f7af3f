//! Nodes and the edges between them.
//!
//! Nodes stand for files, commands, directories and groups, edges for the
//! dependencies between them.
use vstd::prelude::*;

use crate::ids::{
    ascending, ascending_is_unique, drop_id, has_id, ids_of, ids_without, lemma_ids_without_twice,
    lists,
};
use crate::ordmap::OrdMap;
use crate::text::concat3;
use crate::types::{
    i64_to_string, ids_are_finite, int_text, link_name, LinkType, NodeType, TupId,
};

verus! {

/// State of a node while the graph is processed.
#[derive(Debug, Clone, Copy, PartialEq, Eq, Structural)]
pub enum NodeState {
    /// Created, not yet processed.
    Initialized,
    /// Its dependencies are being discovered. To meet a node in this state
    /// again means that dependencies are circular.
    Processing,
    /// Processing is complete.
    Finished,
    /// Marked for removal.
    Removing,
}

/// State of a transient file.
#[derive(Debug, Clone, Copy, PartialEq, Eq, Structural)]
pub enum TransientState {
    /// A node that is not transient.
    Regular,
    /// A transient generated file that is being evaluated.
    Processing,
    /// An unused transient file, which can be deleted.
    Delete,
}

/// An edge of the graph.
#[derive(Debug, Clone, Copy, PartialEq, Eq, Structural)]
pub struct Edge {
    /// The node that is depended on.
    pub src: TupId,
    /// The node that depends on it.
    pub dest: TupId,
    /// What the edge means.
    pub style: LinkType,
}

/// A node of the graph.
#[derive(Debug, Clone, Copy, PartialEq, Eq, Structural)]
pub struct GraphNode {
    pub id: TupId,
    pub node_type: NodeType,
    /// Processing state.
    pub state: NodeState,
    /// Transient state, for generated files.
    pub transient: TransientState,
    /// Whether the node has been used in processing.
    pub already_used: bool,
    /// Whether its dependencies have been expanded.
    pub expanded: bool,
    /// Whether it is being parsed.
    pub parsing: bool,
    /// Whether it is to be kept when the graph is pruned.
    pub marked: bool,
    /// Whether it is to be skipped: so at first, until it is reached.
    pub skip: bool,
    /// Whether it has been counted.
    pub counted: bool,
}

/// A node as it is created.
pub open spec fn fresh_node(id: TupId, node_type: NodeType) -> GraphNode {
    GraphNode {
        id,
        node_type,
        state: NodeState::Initialized,
        transient: TransientState::Regular,
        already_used: false,
        expanded: false,
        parsing: false,
        marked: false,
        skip: true,
        counted: false,
    }
}

impl GraphNode {
    fn new(id: TupId, node_type: NodeType) -> (r: Self)
        ensures
            r == fresh_node(id, node_type),
    {
        GraphNode {
            id,
            node_type,
            state: NodeState::Initialized,
            transient: TransientState::Regular,
            already_used: false,
            expanded: false,
            parsing: false,
            marked: false,
            skip: true,
            counted: false,
        }
    }
}

/// Error for an edge to a node that is being processed.
#[derive(Debug, Clone, Copy, PartialEq, Eq, Structural)]
pub struct CircularDependencyError {
    pub src: TupId,
    pub dest: TupId,
    pub style: LinkType,
}

/// The text that tells of a circular dependency.
pub open spec fn circular_text(e: CircularDependencyError) -> Seq<char> {
    "circular dependency: "@ + int_text(e.src.0 as int) + " -> "@ + int_text(e.dest.0 as int)
        + " ("@ + link_name(e.style) + ")"@
}

impl CircularDependencyError {
    /// The text that tells of the error.
    pub fn message(&self) -> (r: String)
        ensures
            r@ == circular_text(*self),
    {
        let src = i64_to_string(self.src.raw());
        let dest = i64_to_string(self.dest.raw());
        let a = concat3("circular dependency: ", src.as_str(), " -> ");
        let b = concat3(a.as_str(), dest.as_str(), " (");
        concat3(b.as_str(), self.style.name(), ")")
    }
}

/// One end of an edge, as the other end lists it.
pub type Link = (TupId, LinkType);

/// The edges as both of their ends list them.
#[derive(Debug)]
struct EdgeLists {
    /// For each node the edges that leave it.
    out: OrdMap<TupId, Vec<Link>>,
    /// For each node the edges that arrive at it.
    into: OrdMap<TupId, Vec<Link>>,
}

/// Edges that stand in the lists of both their ends.
#[derive(Debug)]
struct Edges {
    lists: EdgeLists,
}

/// The graph of dependencies.
#[derive(Debug)]
pub struct Graph {
    nodes: OrdMap<TupId, GraphNode>,
    edges: Edges,
    /// Nodes in the order in which they were created or finished.
    node_list: Vec<TupId>,
    /// Nodes that wait for expansion; the last one comes first.
    plist: Vec<TupId>,
    /// Nodes that are being removed.
    removing_list: Vec<TupId>,
    /// Which nodes are counted.
    count_flags: NodeType,
    num_nodes: usize,
}

/// A graph as its users see it.
#[verifier::ext_equal]
pub struct GraphText {
    pub nodes: Map<TupId, GraphNode>,
    pub outgoing: spec_fn(TupId) -> Seq<Link>,
    pub incoming: spec_fn(TupId) -> Seq<Link>,
    pub node_list: Seq<TupId>,
    pub plist: Seq<TupId>,
    pub removing_list: Seq<TupId>,
    pub count_flags: NodeType,
    pub num_nodes: usize,
}

pub open spec fn root_id() -> TupId {
    TupId(0)
}

/// The links that a table holds for a node.
pub open spec fn links_at(m: Map<TupId, Vec<Link>>, id: TupId) -> Seq<Link> {
    if m.dom().contains(id) {
        m[id]@
    } else {
        Seq::empty()
    }
}

impl View for Graph {
    type V = GraphText;

    closed spec fn view(&self) -> GraphText {
        GraphText {
            nodes: self.nodes@,
            outgoing: |x: TupId| links_at(self.edges.lists.out@, x),
            incoming: |x: TupId| links_at(self.edges.lists.into@, x),
            node_list: self.node_list@,
            plist: self.plist@,
            removing_list: self.removing_list@,
            count_flags: self.count_flags,
            num_nodes: self.num_nodes,
        }
    }
}

/// How often a link stands in a list.
pub open spec fn multiplicity(s: Seq<Link>, l: Link) -> nat
    decreases s.len(),
{
    if s.len() == 0 {
        0
    } else {
        multiplicity(s.drop_last(), l) + if s.last() == l {
            1nat
        } else {
            0
        }
    }
}

/// How often a node stands in a list of links.
pub open spec fn occurrences(s: Seq<Link>, id: TupId) -> nat
    decreases s.len(),
{
    if s.len() == 0 {
        0
    } else {
        occurrences(s.drop_last(), id) + if s.last().0 == id {
            1nat
        } else {
            0
        }
    }
}

/// The links of a list that name no node of a set.
pub open spec fn links_without(s: Seq<Link>, removed: Set<TupId>) -> Seq<Link>
    decreases s.len(),
{
    if s.len() == 0 {
        Seq::empty()
    } else {
        let before = links_without(s.drop_last(), removed);
        if removed.contains(s.last().0) {
            before
        } else {
            before.push(s.last())
        }
    }
}

/// Whether nodes of a type are counted. With `Root`, all are.
pub open spec fn counts(flags: NodeType, t: NodeType) -> bool {
    flags == NodeType::Root || t == flags
}

impl GraphText {
    /// Every edge stands as often in the list of the node that it leaves as in
    /// that of the node at which it arrives.
    pub open spec fn mirrored(self) -> bool {
        forall|a: TupId, b: TupId, style: LinkType|
            #![trigger multiplicity((self.outgoing)(a), (b, style))]
            #![trigger multiplicity((self.incoming)(b), (a, style))]
            multiplicity((self.outgoing)(a), (b, style)) == multiplicity(
                (self.incoming)(b),
                (a, style),
            )
    }

    /// The nodes of a set that were counted.
    pub open spec fn counted_in(self, s: Set<TupId>) -> Set<TupId> {
        Set::new(
            |x: TupId|
                s.contains(x) && self.nodes.dom().contains(x) && counts(
                    self.count_flags,
                    self.nodes[x].node_type,
                ) && self.nodes[x].counted,
        )
    }

    /// The graph without some nodes and without their edges.
    pub open spec fn without(self, removed: Set<TupId>) -> GraphText {
        let n = self.counted_in(removed).len();
        GraphText {
            nodes: self.nodes.remove_keys(removed),
            outgoing: |x: TupId|
                if removed.contains(x) {
                    Seq::empty()
                } else {
                    links_without((self.outgoing)(x), removed)
                },
            incoming: |x: TupId|
                if removed.contains(x) {
                    Seq::empty()
                } else {
                    links_without((self.incoming)(x), removed)
                },
            node_list: ids_without(self.node_list, removed),
            plist: ids_without(self.plist, removed),
            removing_list: ids_without(self.removing_list, removed),
            count_flags: self.count_flags,
            num_nodes: if n <= self.num_nodes {
                (self.num_nodes - n) as usize
            } else {
                0
            },
        }
    }

    /// The graph with a new node, where the node is not there yet.
    pub open spec fn with_node(self, id: TupId, node_type: NodeType) -> GraphText {
        if self.nodes.dom().contains(id) {
            self
        } else {
            GraphText {
                nodes: self.nodes.insert(id, fresh_node(id, node_type)),
                node_list: self.node_list.push(id),
                num_nodes: if counts(self.count_flags, node_type) {
                    (self.num_nodes + 1) as usize
                } else {
                    self.num_nodes
                },
                ..self
            }
        }
    }

    /// The graph with a new edge.
    pub open spec fn with_edge(self, src: TupId, dest: TupId, style: LinkType) -> GraphText {
        GraphText {
            outgoing: |x: TupId|
                if x == src {
                    (self.outgoing)(x).push((dest, style))
                } else {
                    (self.outgoing)(x)
                },
            incoming: |x: TupId|
                if x == dest {
                    (self.incoming)(x).push((src, style))
                } else {
                    (self.incoming)(x)
                },
            ..self
        }
    }

    /// The graph with a node among the finished ones.
    pub open spec fn finished(self, id: TupId) -> GraphText {
        GraphText {
            nodes: if self.nodes.dom().contains(id) {
                self.nodes.insert(
                    id,
                    GraphNode { state: NodeState::Finished, ..self.nodes[id] },
                )
            } else {
                self.nodes
            },
            plist: ids_without(self.plist, set![id]),
            node_list: if self.node_list.contains(id) {
                self.node_list
            } else {
                self.node_list.push(id)
            },
            ..self
        }
    }

    /// Whether a node is being processed.
    pub open spec fn in_process(self, id: TupId) -> bool {
        self.nodes.dom().contains(id) && self.nodes[id].state == NodeState::Processing
    }

    /// The nodes that edges leave.
    pub open spec fn sources(self) -> Set<TupId> {
        Set::new(|x: TupId| (self.outgoing)(x).len() > 0)
    }
}

/// The edges that leave a node.
pub open spec fn edges_of(src: TupId, links: Seq<Link>) -> Seq<Edge> {
    Seq::new(links.len(), |i: int| Edge { src, dest: links[i].0, style: links[i].1 })
}

/// The edges that leave the nodes of a list, one node after the other.
pub open spec fn edges_from(g: GraphText, srcs: Seq<TupId>) -> Seq<Edge>
    decreases srcs.len(),
{
    if srcs.len() == 0 {
        Seq::empty()
    } else {
        edges_from(g, srcs.drop_last()) + edges_of(srcs.last(), (g.outgoing)(srcs.last()))
    }
}

/// All edges, in the order of the nodes that they leave.
pub open spec fn edge_list(g: GraphText) -> Seq<Edge> {
    edges_from(g, ascending(g.sources()))
}

// ------------------------------------------------ lemmas about links

pub proof fn lemma_links_without(s: Seq<Link>, removed: Set<TupId>)
    ensures
        links_without(s, removed).len() <= s.len(),
        forall|i: int|
            0 <= i < s.len() && !removed.contains((#[trigger] s[i]).0) ==> links_without(
                s,
                removed,
            ).contains(s[i]),
        forall|i: int|
            0 <= i < links_without(s, removed).len() ==> !removed.contains(
                (#[trigger] links_without(s, removed)[i]).0,
            ) && s.contains(links_without(s, removed)[i]),
    decreases s.len(),
{
    if s.len() > 0 {
        let t = s.drop_last();
        let before = links_without(t, removed);
        let r = links_without(s, removed);
        lemma_links_without(t, removed);
        assert forall|i: int| 0 <= i < s.len() && !removed.contains((#[trigger] s[i]).0) implies
            r.contains(s[i]) by {
            if i < t.len() {
                assert(t[i] == s[i]);
                assert(before.contains(s[i]));
                let k = choose|k: int| 0 <= k < before.len() && before[k] == s[i];
                assert(r[k] == s[i]);
            } else {
                assert(r[before.len() as int] == s[i]);
            }
        }
        assert forall|i: int| 0 <= i < r.len() implies !removed.contains((#[trigger] r[i]).0)
            && s.contains(r[i]) by {
            if i < before.len() {
                assert(r[i] == before[i]);
                let k = choose|k: int| 0 <= k < t.len() && t[k] == before[i];
                assert(s[k] == r[i]);
            } else {
                assert(r[i] == s[s.len() - 1]);
            }
        }
    }
}

proof fn lemma_links_without_twice(s: Seq<Link>, a: Set<TupId>, b: Set<TupId>)
    ensures
        links_without(links_without(s, a), b) == links_without(s, a.union(b)),
    decreases s.len(),
{
    if s.len() > 0 {
        lemma_links_without_twice(s.drop_last(), a, b);
        let before = links_without(s.drop_last(), a);
        if !a.contains(s.last().0) {
            assert(before.push(s.last()).drop_last() =~= before);
        }
    }
}

proof fn lemma_links_without_none(s: Seq<Link>, a: Set<TupId>)
    requires
        forall|i: int| 0 <= i < s.len() ==> !a.contains((#[trigger] s[i]).0),
    ensures
        links_without(s, a) == s,
    decreases s.len(),
{
    if s.len() > 0 {
        let t = s.drop_last();
        assert forall|i: int| 0 <= i < t.len() implies !a.contains((#[trigger] t[i]).0) by {
            assert(t[i] == s[i]);
        }
        lemma_links_without_none(t, a);
        assert(!a.contains(s[s.len() - 1].0));
        assert(s =~= t.push(s.last()));
    } else {
        assert(s =~= Seq::empty());
    }
}

proof fn lemma_multiplicity_without(s: Seq<Link>, removed: Set<TupId>, l: Link)
    ensures
        multiplicity(links_without(s, removed), l) == if removed.contains(l.0) {
            0
        } else {
            multiplicity(s, l)
        },
    decreases s.len(),
{
    if s.len() > 0 {
        lemma_multiplicity_without(s.drop_last(), removed, l);
        let before = links_without(s.drop_last(), removed);
        if !removed.contains(s.last().0) {
            assert(before.push(s.last()).drop_last() =~= before);
        }
    }
}

pub proof fn lemma_multiplicity_positive(s: Seq<Link>, i: int)
    requires
        0 <= i < s.len(),
    ensures
        multiplicity(s, s[i]) > 0,
    decreases s.len(),
{
    if i < s.len() - 1 {
        assert(s.drop_last()[i] == s[i]);
        lemma_multiplicity_positive(s.drop_last(), i);
    }
}

pub proof fn lemma_multiplicity_found(s: Seq<Link>, l: Link)
    requires
        multiplicity(s, l) > 0,
    ensures
        s.contains(l),
    decreases s.len(),
{
    if s.last() != l {
        lemma_multiplicity_found(s.drop_last(), l);
        let i = choose|i: int| 0 <= i < s.drop_last().len() && s.drop_last()[i] == l;
        assert(s[i] == l);
    } else {
        assert(s[s.len() - 1] == l);
    }
}

/// Removing nodes keeps a graph mirrored.
pub proof fn removal_keeps_mirrored(g: GraphText, removed: Set<TupId>)
    requires
        g.mirrored(),
    ensures
        g.without(removed).mirrored(),
{
    let h = g.without(removed);
    assert forall|a: TupId, b: TupId, style: LinkType| #[trigger]
        multiplicity((h.outgoing)(a), (b, style)) == multiplicity((h.incoming)(b), (a, style)) by {
        lemma_multiplicity_without((g.outgoing)(a), removed, (b, style));
        lemma_multiplicity_without((g.incoming)(b), removed, (a, style));
        assert(multiplicity((g.outgoing)(a), (b, style)) == multiplicity(
            (g.incoming)(b),
            (a, style),
        ));
        assert(multiplicity(Seq::<Link>::empty(), (b, style)) == 0);
        assert(multiplicity(Seq::<Link>::empty(), (a, style)) == 0);
    }
}

/// A new edge keeps a graph mirrored.
pub proof fn new_edge_keeps_mirrored(g: GraphText, src: TupId, dest: TupId, style: LinkType)
    requires
        g.mirrored(),
    ensures
        g.with_edge(src, dest, style).mirrored(),
{
    let h = g.with_edge(src, dest, style);
    assert forall|a: TupId, b: TupId, t: LinkType| #[trigger]
        multiplicity((h.outgoing)(a), (b, t)) == multiplicity((h.incoming)(b), (a, t)) by {
        assert(multiplicity((g.outgoing)(a), (b, t)) == multiplicity((g.incoming)(b), (a, t)));
        assert((g.outgoing)(a).push((dest, style)).drop_last() =~= (g.outgoing)(a));
        assert((g.incoming)(b).push((src, style)).drop_last() =~= (g.incoming)(b));
    }
}

/// Nodes can be removed all at once or in two steps.
pub proof fn removal_in_steps(g: GraphText, a: Set<TupId>, b: Set<TupId>)
    ensures
        g.without(a).without(b) == g.without(a.union(b)),
{
    let h = g.without(a);
    let ab = a.union(b);
    let x = h.without(b);
    let y = g.without(ab);
    assert(x.nodes =~= y.nodes);
    assert forall|id: TupId| #[trigger] (x.outgoing)(id) == (y.outgoing)(id) by {
        lemma_links_without_twice((g.outgoing)(id), a, b);
        if a.contains(id) {
            assert(links_without(Seq::<Link>::empty(), b) =~= Seq::empty());
        }
    }
    assert forall|id: TupId| #[trigger] (x.incoming)(id) == (y.incoming)(id) by {
        lemma_links_without_twice((g.incoming)(id), a, b);
        if a.contains(id) {
            assert(links_without(Seq::<Link>::empty(), b) =~= Seq::empty());
        }
    }
    assert(x.outgoing =~= y.outgoing);
    assert(x.incoming =~= y.incoming);
    lemma_ids_without_twice(g.node_list, a, b);
    lemma_ids_without_twice(g.plist, a, b);
    lemma_ids_without_twice(g.removing_list, a, b);
    let ca = g.counted_in(a);
    let cb = h.counted_in(b);
    ids_are_finite(ca);
    ids_are_finite(cb);
    assert(g.counted_in(ab) =~= ca.union(cb));
    assert(ca.disjoint(cb));
    vstd::set_lib::lemma_set_disjoint_lens(ca, cb);
}

/// Removing no nodes changes nothing.
pub proof fn lemma_without_none(g: GraphText)
    ensures
        g.without(Set::empty()) == g,
{
    let e = Set::<TupId>::empty();
    let h = g.without(e);
    assert(h.nodes =~= g.nodes);
    assert forall|id: TupId| #[trigger] (h.outgoing)(id) == (g.outgoing)(id) by {
        lemma_links_without_none((g.outgoing)(id), e);
    }
    assert forall|id: TupId| #[trigger] (h.incoming)(id) == (g.incoming)(id) by {
        lemma_links_without_none((g.incoming)(id), e);
    }
    assert(h.outgoing =~= g.outgoing);
    assert(h.incoming =~= g.incoming);
    crate::ids::lemma_ids_without_none(g.node_list, e);
    crate::ids::lemma_ids_without_none(g.plist, e);
    crate::ids::lemma_ids_without_none(g.removing_list, e);
    assert(g.counted_in(e) =~= Set::empty());
}

// ------------------------------------------------ what trimming leaves

/// Whether a node survives the removal of the nodes outside `s`: it is in `s`,
/// or the root, or no node of the graph.
pub open spec fn stays(g: GraphText, s: Set<TupId>, y: TupId) -> bool {
    s.contains(y) || y == root_id() || !g.nodes.dom().contains(y)
}

/// Whether a list has a link to a node that survives.
pub open spec fn has_link(g: GraphText, s: Set<TupId>, links: Seq<Link>) -> bool {
    exists|i: int| 0 <= i < links.len() && stays(g, s, (#[trigger] links[i]).0)
}

/// A set of nodes of which each has an edge from and an edge to a node that
/// survives with the set.
pub open spec fn is_core(g: GraphText, s: Set<TupId>) -> bool {
    forall|x: TupId| #[trigger]
        s.contains(x) ==> x != root_id() && g.nodes.dom().contains(x) && has_link(
            g,
            s,
            (g.incoming)(x),
        ) && has_link(g, s, (g.outgoing)(x))
}

/// Whether a node is in such a set: it then lies on a cycle, between cycles, or
/// between nodes that trimming does not touch.
pub open spec fn in_core(g: GraphText, id: TupId) -> bool {
    exists|s: Set<TupId>| is_core(g, s) && s.contains(id)
}

/// The nodes that trimming removes.
pub open spec fn trimmed_away(g: GraphText) -> Set<TupId> {
    Set::new(|id: TupId| g.nodes.dom().contains(id) && id != root_id() && !in_core(g, id))
}

// ------------------------------------------------ what pruning keeps

/// Whether keeping `a` means keeping `b`: `a` depends on `b`, or `a` is a
/// command and `b` its output.
pub open spec fn needs(g: GraphText, a: TupId, b: TupId) -> bool {
    ||| exists|i: int| 0 <= i < (g.incoming)(a).len() && (#[trigger] (g.incoming)(a)[i]).0 == b
    ||| g.nodes.dom().contains(a) && g.nodes[a].node_type == NodeType::Cmd && exists|i: int|
        0 <= i < (g.outgoing)(a).len() && (#[trigger] (g.outgoing)(a)[i]).0 == b
}

/// A chain of needs that starts at a target.
pub open spec fn need_chain(g: GraphText, targets: Seq<TupId>, p: Seq<TupId>) -> bool {
    &&& p.len() > 0
    &&& targets.contains(p[0])
    &&& forall|i: int| 0 <= i < p.len() - 1 ==> needs(g, p[i], #[trigger] p[i + 1])
}

/// Whether pruning to some targets keeps a node: the root, and what the targets
/// need.
pub open spec fn kept(g: GraphText, targets: Seq<TupId>, id: TupId) -> bool {
    id == root_id() || exists|p: Seq<TupId>| #[trigger]
        need_chain(g, targets, p) && p.last() == id
}

pub open spec fn pruned_away(g: GraphText, targets: Seq<TupId>) -> Set<TupId> {
    Set::new(|id: TupId| g.nodes.dom().contains(id) && !kept(g, targets, id))
}

pub proof fn lemma_closed_keeps_chain(
    g: GraphText,
    targets: Seq<TupId>,
    marked: Set<TupId>,
    p: Seq<TupId>,
)
    requires
        need_chain(g, targets, p),
        forall|i: int| 0 <= i < targets.len() ==> marked.contains(#[trigger] targets[i]),
        forall|a: TupId, b: TupId| marked.contains(a) && #[trigger] needs(g, a, b)
            ==> marked.contains(b),
    ensures
        marked.contains(p.last()),
    decreases p.len(),
{
    if p.len() == 1 {
        let i = choose|i: int| 0 <= i < targets.len() && targets[i] == p[0];
        assert(marked.contains(targets[i]));
    } else {
        let q = p.drop_last();
        assert(need_chain(g, targets, q)) by {
            assert(q[0] == p[0]);
            assert forall|i: int| 0 <= i < q.len() - 1 implies needs(g, q[i], #[trigger] q[i + 1]) by {
                assert(needs(g, p[i], p[i + 1]));
            }
        }
        lemma_closed_keeps_chain(g, targets, marked, q);
        let k = p.len() - 2;
        assert(needs(g, p[k], p[k + 1]));
        assert(q.last() == p[k]);
    }
}

pub proof fn lemma_chain_extends(g: GraphText, targets: Seq<TupId>, a: TupId, b: TupId)
    requires
        exists|p: Seq<TupId>| #[trigger] need_chain(g, targets, p) && p.last() == a,
        needs(g, a, b),
    ensures
        exists|p: Seq<TupId>| #[trigger] need_chain(g, targets, p) && p.last() == b,
{
    let p = choose|p: Seq<TupId>| #[trigger] need_chain(g, targets, p) && p.last() == a;
    let q = p.push(b);
    assert forall|i: int| 0 <= i < q.len() - 1 implies needs(g, q[i], #[trigger] q[i + 1]) by {
        if i < p.len() - 1 {
            assert(needs(g, p[i], p[i + 1]));
            assert(q[i + 1] == p[i + 1]);
        } else {
            assert(q[i] == p.last());
        }
    }
    assert(q[0] == p[0]);
    assert(need_chain(g, targets, q) && q.last() == b);
}

// ------------------------------------------------ exec

fn filter_links(v: &Vec<Link>, id: TupId) -> (r: Vec<Link>)
    ensures
        r@ == links_without(v@, set![id]),
{
    let mut out: Vec<Link> = Vec::new();
    let mut i: usize = 0;
    assert(out@ =~= Seq::empty());
    while i < v.len()
        invariant
            i <= v@.len(),
            out@ == links_without(v@.take(i as int), set![id]),
        decreases v.len() - i,
    {
        assert(v@.take(i + 1).drop_last() =~= v@.take(i as int));
        if v[i].0 != id {
            out.push(v[i]);
        }
        i += 1;
    }
    assert(v@.take(v@.len() as int) =~= v@);
    out
}

/// Adds a link to the list of a node.
fn add_link(m: &mut OrdMap<TupId, Vec<Link>>, at: TupId, l: Link)
    ensures
        forall|x: TupId| #[trigger]
            links_at(final(m)@, x) == if x == at {
                links_at(old(m)@, x).push(l)
            } else {
                links_at(old(m)@, x)
            },
{
    let mut v = match m.remove(&at) {
        Some(v) => v,
        None => Vec::new(),
    };
    v.push(l);
    m.insert(at, v);
}

/// Takes a node out of the lists of the nodes that `links` names.
fn drop_from_lists(m: &mut OrdMap<TupId, Vec<Link>>, links: &Vec<Link>, id: TupId)
    ensures
        forall|x: TupId| #[trigger]
            links_at(final(m)@, x) == if occurrences(links@, x) > 0 {
                links_without(links_at(old(m)@, x), set![id])
            } else {
                links_at(old(m)@, x)
            },
{
    let mut i: usize = 0;
    while i < links.len()
        invariant
            i <= links@.len(),
            forall|x: TupId| #[trigger]
                links_at(m@, x) == if occurrences(links@.take(i as int), x) > 0 {
                    links_without(links_at(old(m)@, x), set![id])
                } else {
                    links_at(old(m)@, x)
                },
        decreases links.len() - i,
    {
        let other = links[i].0;
        let ghost before = m@;
        assert(links@.take(i + 1).drop_last() =~= links@.take(i as int));
        match m.remove(&other) {
            Some(v) => {
                let w = filter_links(&v, id);
                m.insert(other, w);
            },
            None => {},
        }
        proof {
            assert forall|x: TupId| #[trigger]
                links_at(m@, x) == if occurrences(links@.take(i + 1), x) > 0 {
                    links_without(links_at(old(m)@, x), set![id])
                } else {
                    links_at(old(m)@, x)
                } by {
                let o = links_at(old(m)@, x);
                if x == other {
                    assert(links_at(m@, x) == links_without(links_at(before, x), set![id]));
                    lemma_links_without_twice(o, set![id], set![id]);
                    assert(set![id].union(set![id]) =~= set![id]);
                } else {
                    assert(links_at(m@, x) == links_at(before, x));
                }
            }
        }
        i += 1;
    }
    assert(links@.take(links@.len() as int) =~= links@);
}

pub proof fn lemma_occurrences_from_link(s: Seq<Link>, i: int)
    requires
        0 <= i < s.len(),
    ensures
        occurrences(s, s[i].0) > 0,
    decreases s.len(),
{
    if i < s.len() - 1 {
        assert(s.drop_last()[i] == s[i]);
        lemma_occurrences_from_link(s.drop_last(), i);
    }
}

/// In a mirrored graph, a list that names a node is a list that the node names.
proof fn lemma_mirror_found(g: GraphText, a: TupId, b: TupId, i: int)
    requires
        g.mirrored(),
        0 <= i < (g.incoming)(b).len(),
        (g.incoming)(b)[i].0 == a,
    ensures
        occurrences((g.outgoing)(a), b) > 0,
{
    let l = (g.incoming)(b)[i];
    lemma_multiplicity_positive((g.incoming)(b), i);
    assert(multiplicity((g.outgoing)(a), (b, l.1)) == multiplicity((g.incoming)(b), (a, l.1)));
    assert((a, l.1) == l);
    lemma_multiplicity_found((g.outgoing)(a), (b, l.1));
    let k = choose|k: int| 0 <= k < (g.outgoing)(a).len() && #[trigger] (g.outgoing)(a)[k] == (b, l.1);
    lemma_occurrences_from_link((g.outgoing)(a), k);
}

proof fn lemma_mirror_found_back(g: GraphText, a: TupId, b: TupId, i: int)
    requires
        g.mirrored(),
        0 <= i < (g.outgoing)(a).len(),
        (g.outgoing)(a)[i].0 == b,
    ensures
        occurrences((g.incoming)(b), a) > 0,
{
    let l = (g.outgoing)(a)[i];
    lemma_multiplicity_positive((g.outgoing)(a), i);
    assert(multiplicity((g.outgoing)(a), (b, l.1)) == multiplicity((g.incoming)(b), (a, l.1)));
    assert((b, l.1) == l);
    lemma_multiplicity_found((g.incoming)(b), (a, l.1));
    let k = choose|k: int| 0 <= k < (g.incoming)(b).len() && #[trigger] (g.incoming)(b)[k] == (a, l.1);
    lemma_occurrences_from_link((g.incoming)(b), k);
}

/// Whether every edge stands as often in one list as in the other.
spec fn lists_mirrored(lists: EdgeLists) -> bool {
    forall|a: TupId, b: TupId, style: LinkType|
        #![trigger multiplicity(links_at(lists.out@, a), (b, style))]
        #![trigger multiplicity(links_at(lists.into@, b), (a, style))]
        multiplicity(links_at(lists.out@, a), (b, style)) == multiplicity(
            links_at(lists.into@, b),
            (a, style),
        )
}

/// Lists of a graph in which every edge stands in both.
proof fn lemma_lists_mirrored(g: GraphText, lists: EdgeLists)
    requires
        g.mirrored(),
        forall|x: TupId| #[trigger] links_at(lists.out@, x) == (g.outgoing)(x),
        forall|x: TupId| #[trigger] links_at(lists.into@, x) == (g.incoming)(x),
    ensures
        lists_mirrored(lists),
{
    assert forall|a: TupId, b: TupId, style: LinkType| multiplicity(
        links_at(lists.out@, a),
        (b, style),
    ) == #[trigger] multiplicity(links_at(lists.into@, b), (a, style)) by {
        assert(multiplicity((g.outgoing)(a), (b, style)) == multiplicity(
            (g.incoming)(b),
            (a, style),
        ));
    }
}

impl Edges {
    #[verifier::type_invariant]
    spec fn are_mirrored(self) -> bool {
        lists_mirrored(self.lists)
    }

    fn new() -> (r: Self)
        ensures
            forall|x: TupId| #[trigger] links_at(r.lists.out@, x) == Seq::<Link>::empty(),
            forall|x: TupId| #[trigger] links_at(r.lists.into@, x) == Seq::<Link>::empty(),
    {
        Edges { lists: EdgeLists { out: OrdMap::new(), into: OrdMap::new() } }
    }

    fn of(lists: EdgeLists) -> (r: Self)
        requires
            lists_mirrored(lists),
        ensures
            r.lists == lists,
    {
        Edges { lists }
    }

    /// Takes the lists out. No edge is left.
    fn take(&mut self) -> (r: EdgeLists)
        ensures
            r == old(self).lists,
    {
        let mut lists = EdgeLists { out: OrdMap::new(), into: OrdMap::new() };
        std::mem::swap(&mut self.lists, &mut lists);
        lists
    }
}

impl Graph {
    /// Every edge of a graph stands in the lists of both its ends.
    pub(crate) fn edges_are_mirrored(&self)
        ensures
            self@.mirrored(),
    {
        proof {
            use_type_invariant(&self.edges);
        }
    }

    /// Creates a graph that holds only the root.
    ///
    /// `count_flags` says which nodes are counted; `NodeType::Root` counts all.
    pub fn new(count_flags: NodeType) -> (r: Self)
        ensures
            r@ == (GraphText {
                nodes: map![root_id() => fresh_node(root_id(), NodeType::Root)],
                outgoing: |x: TupId| Seq::empty(),
                incoming: |x: TupId| Seq::empty(),
                node_list: seq![root_id()],
                plist: Seq::empty(),
                removing_list: Seq::empty(),
                count_flags,
                num_nodes: 0,
            }),
            r@.mirrored(),
    {
        let root = TupId::new(0);
        let mut nodes: OrdMap<TupId, GraphNode> = OrdMap::new();
        nodes.insert(root, GraphNode::new(root, NodeType::Root));
        let mut node_list: Vec<TupId> = Vec::new();
        node_list.push(root);
        let r = Graph {
            nodes,
            edges: Edges::new(),
            node_list,
            plist: Vec::new(),
            removing_list: Vec::new(),
            count_flags,
            num_nodes: 0,
        };
        proof {
            assert(r@.outgoing =~= (|x: TupId| Seq::<Link>::empty()));
            assert(r@.incoming =~= (|x: TupId| Seq::<Link>::empty()));
            assert(r@.node_list =~= seq![root_id()]);
        }
        r
    }

    /// The identifier of the root.
    pub fn root(&self) -> (r: TupId)
        ensures
            r == root_id(),
    {
        TupId::new(0)
    }

    /// Finds a node.
    pub fn find_node(&self, id: TupId) -> (r: Option<&GraphNode>)
        ensures
            match r {
                Some(n) => self@.nodes.dom().contains(id) && *n == self@.nodes[id],
                None => !self@.nodes.dom().contains(id),
            },
    {
        self.nodes.get(&id)
    }

    /// Replaces a node that is there, and says whether it is.
    pub fn set_node(&mut self, id: TupId, node: GraphNode) -> (r: bool)
        ensures
            r == old(self)@.nodes.dom().contains(id),
            final(self)@ == (GraphText {
                nodes: if r {
                    old(self)@.nodes.insert(id, node)
                } else {
                    old(self)@.nodes
                },
                ..old(self)@
            }),
    {
        if self.nodes.contains(&id) {
            self.nodes.insert(id, node);
            true
        } else {
            false
        }
    }

    /// Whether a node is in the graph.
    pub fn contains(&self, id: TupId) -> (r: bool)
        ensures
            r == self@.nodes.dom().contains(id),
    {
        self.nodes.contains(&id)
    }

    /// Creates a node, and gives back its identifier. One that is there already
    /// stays as it is.
    pub fn create_node(&mut self, id: TupId, node_type: NodeType) -> (r: TupId)
        requires
            old(self)@.nodes.dom().contains(id) || !counts(old(self)@.count_flags, node_type) || old(
                self,
            )@.num_nodes < usize::MAX,
        ensures
            r == id,
            final(self)@ == old(self)@.with_node(id, node_type),
    {
        if self.nodes.contains(&id) {
            return id;
        }
        self.nodes.insert(id, GraphNode::new(id, node_type));
        self.node_list.push(id);
        if self.should_count(node_type) {
            self.num_nodes = self.num_nodes + 1;
        }
        id
    }

    /// Creates an edge.
    ///
    /// Fails where the destination is being processed: the dependency would be
    /// circular.
    pub fn create_edge(&mut self, src: TupId, dest: TupId, style: LinkType) -> (r: Result<
        (),
        CircularDependencyError,
    >)
        ensures
            final(self)@.mirrored(),
            match r {
                Ok(()) => !old(self)@.in_process(dest) && final(self)@ == old(self)@.with_edge(
                    src,
                    dest,
                    style,
                ),
                Err(e) => {
                    &&& old(self)@.in_process(dest)
                    &&& e == (CircularDependencyError { src, dest, style })
                    &&& final(self)@ == old(self)@
                },
            },
    {
        proof {
            use_type_invariant(&self.edges);
        }
        if let Some(n) = self.nodes.get(&dest) {
            if n.state == NodeState::Processing {
                return Err(CircularDependencyError { src, dest, style });
            }
        }
        let ghost g = self@;
        let ghost h = g.with_edge(src, dest, style);
        let mut lists = self.edges.take();
        add_link(&mut lists.out, src, (dest, style));
        add_link(&mut lists.into, dest, (src, style));
        proof {
            new_edge_keeps_mirrored(g, src, dest, style);
            assert forall|x: TupId| #[trigger] links_at(lists.out@, x) == (h.outgoing)(x) by {
            }
            assert forall|x: TupId| #[trigger] links_at(lists.into@, x) == (h.incoming)(x) by {
            }
            lemma_lists_mirrored(h, lists);
        }
        self.edges = Edges::of(lists);
        proof {
            assert(self@.outgoing =~= h.outgoing);
            assert(self@.incoming =~= h.incoming);
        }
        Ok(())
    }

    /// Removes all edges that leave a node or arrive at it.
    pub fn remove_edges(&mut self, id: TupId)
        ensures
            final(self)@.mirrored(),
            final(self)@ == (GraphText {
                outgoing: old(self)@.without(set![id]).outgoing,
                incoming: old(self)@.without(set![id]).incoming,
                ..old(self)@
            }),
    {
        proof {
            use_type_invariant(&self.edges);
        }
        let ghost g = self@;
        let ghost one = set![id];
        let ghost h = g.without(one);
        let mut lists = self.edges.take();
        match lists.out.remove(&id) {
            Some(links) => {
                drop_from_lists(&mut lists.into, &links, id);
                assert(links@ == (g.outgoing)(id));
            },
            None => {
                assert((g.outgoing)(id) =~= Seq::empty());
            },
        }
        proof {
            assert forall|x: TupId| #[trigger] links_at(lists.into@, x) == links_without(
                (g.incoming)(x),
                one,
            ) by {
                if occurrences((g.outgoing)(id), x) == 0 {
                    assert forall|i: int| 0 <= i < (g.incoming)(x).len() implies !one.contains(
                        (#[trigger] (g.incoming)(x)[i]).0,
                    ) by {
                        if (g.incoming)(x)[i].0 == id {
                            lemma_mirror_found(g, id, x, i);
                        }
                    }
                    lemma_links_without_none((g.incoming)(x), one);
                }
            }
        }
        let ghost mid = lists.into@;
        let ghost ins = links_at(mid, id);
        match lists.into.remove(&id) {
            Some(links) => {
                drop_from_lists(&mut lists.out, &links, id);
                assert(links@ == ins);
            },
            None => {
                assert(ins =~= Seq::empty());
            },
        }
        proof {
            assert forall|x: TupId| #[trigger] links_at(lists.out@, x) == (h.outgoing)(x) by {
                if x != id && occurrences(ins, x) == 0 {
                    assert forall|i: int| 0 <= i < (g.outgoing)(x).len() implies !one.contains(
                        (#[trigger] (g.outgoing)(x)[i]).0,
                    ) by {
                        if (g.outgoing)(x)[i].0 == id {
                            lemma_mirror_found_back(g, x, id, i);
                            lemma_occurrences_without((g.incoming)(id), id, x);
                        }
                    }
                    lemma_links_without_none((g.outgoing)(x), one);
                }
            }
            assert forall|x: TupId| #[trigger] links_at(lists.into@, x) == (h.incoming)(x) by {
                assert(links_at(mid, x) == links_without((g.incoming)(x), one));
                assert(x != id ==> links_at(lists.into@, x) == links_at(mid, x));
            }
            removal_keeps_mirrored(g, one);
            lemma_lists_mirrored(h, lists);
        }
        self.edges = Edges::of(lists);
        proof {
            assert(self@.outgoing =~= h.outgoing);
            assert(self@.incoming =~= h.incoming);
        }
    }

    /// Removes a node and its edges.
    pub fn remove_node(&mut self, id: TupId)
        ensures
            final(self)@.mirrored(),
            final(self)@ == old(self)@.without(set![id]),
    {
        proof {
            use_type_invariant(&self.edges);
        }
        let ghost g = self@;
        let ghost one = set![id];
        self.remove_edges(id);
        let count_it = match self.nodes.remove(&id) {
            Some(node) => self.should_count(node.node_type) && node.counted,
            None => false,
        };
        proof {
            if count_it {
                assert(g.counted_in(one) =~= one);
            } else {
                assert(g.counted_in(one) =~= Set::empty());
            }
        }
        if count_it && self.num_nodes > 0 {
            self.num_nodes = self.num_nodes - 1;
        }
        self.node_list = drop_id(&self.node_list, id);
        self.plist = drop_id(&self.plist, id);
        self.removing_list = drop_id(&self.removing_list, id);
        proof {
            assert(self@.nodes =~= g.without(one).nodes);
            removal_keeps_mirrored(g, one);
        }
    }

    /// The edges that leave a node.
    pub fn outgoing_edges(&self, id: TupId) -> (r: Vec<Link>)
        ensures
            r@ == (self@.outgoing)(id),
    {
        match self.edges.lists.out.get(&id) {
            Some(v) => copy_links(v),
            None => Vec::new(),
        }
    }

    /// The edges that arrive at a node.
    pub fn incoming_edges(&self, id: TupId) -> (r: Vec<Link>)
        ensures
            r@ == (self@.incoming)(id),
    {
        match self.edges.lists.into.get(&id) {
            Some(v) => copy_links(v),
            None => Vec::new(),
        }
    }

    /// Whether the graph has no nodes but the root.
    pub fn is_empty(&self) -> (r: bool)
        ensures
            r == (self@.nodes.dom().len() <= 1),
    {
        self.nodes.len() <= 1
    }

    /// The number of nodes, without the root.
    pub fn node_count(&self) -> (r: usize)
        ensures
            r == if self@.nodes.dom().len() == 0 {
                0
            } else {
                self@.nodes.dom().len() - 1
            },
    {
        let n = self.nodes.len();
        if n == 0 {
            0
        } else {
            n - 1
        }
    }

    /// The number of nodes that were counted.
    pub fn counted_nodes(&self) -> (r: usize)
        ensures
            r == self@.num_nodes,
    {
        self.num_nodes
    }

    /// Puts a node at the front of the list of nodes to process.
    pub fn push_plist(&mut self, id: TupId)
        ensures
            final(self)@ == (GraphText { plist: old(self)@.plist.push(id), ..old(self)@ }),
    {
        self.plist.push(id);
    }

    /// Takes the node at the front of the list of nodes to process.
    pub fn pop_plist(&mut self) -> (r: Option<TupId>)
        ensures
            match r {
                Some(id) => {
                    &&& old(self)@.plist.len() > 0
                    &&& id == old(self)@.plist.last()
                    &&& final(self)@ == (GraphText {
                        plist: old(self)@.plist.drop_last(),
                        ..old(self)@
                    })
                },
                None => old(self)@.plist.len() == 0 && final(self)@ == old(self)@,
            },
    {
        self.plist.pop()
    }

    /// Whether no nodes are left to process.
    pub fn plist_is_empty(&self) -> (r: bool)
        ensures
            r == (self@.plist.len() == 0),
    {
        self.plist.len() == 0
    }

    /// Moves a node to the list of finished nodes.
    pub fn finish_node(&mut self, id: TupId)
        ensures
            final(self)@ == old(self)@.finished(id),
    {
        if let Some(n) = self.nodes.get(&id) {
            let mut node = *n;
            node.state = NodeState::Finished;
            self.nodes.insert(id, node);
        }
        self.plist = drop_id(&self.plist, id);
        if !has_id(&self.node_list, id) {
            self.node_list.push(id);
        }
    }

    /// The nodes in the order in which they were created or finished.
    pub fn finished_nodes(&self) -> (r: &Vec<TupId>)
        ensures
            r@ == self@.node_list,
    {
        &self.node_list
    }

    /// All nodes in the order of their identifiers.
    pub fn nodes(&self) -> (r: Vec<(TupId, GraphNode)>)
        ensures
            r@.len() == ascending(self@.nodes.dom()).len(),
            forall|i: int|
                0 <= i < r@.len() ==> (#[trigger] r@[i]).0 == ascending(self@.nodes.dom())[i]
                    && self@.nodes.dom().contains(r@[i].0) && r@[i].1 == self@.nodes[r@[i].0],
    {
        let ids = ids_of(&self.nodes);
        let mut out: Vec<(TupId, GraphNode)> = Vec::new();
        let mut i: usize = 0;
        while i < ids.len()
            invariant
                i <= ids@.len(),
                lists(ids@, self@.nodes.dom()),
                out@.len() == i,
                forall|j: int|
                    0 <= j < i ==> (#[trigger] out@[j]).0 == ids@[j] && self@.nodes.dom().contains(
                        out@[j].0,
                    ) && out@[j].1 == self@.nodes[out@[j].0],
            decreases ids.len() - i,
        {
            assert(ids@.contains(ids@[i as int]));
            if let Some(n) = self.nodes.get(&ids[i]) {
                out.push((ids[i], *n));
            }
            i += 1;
        }
        out
    }

    /// The identifiers of all nodes in increasing order.
    pub fn node_ids(&self) -> (r: Vec<TupId>)
        ensures
            r@ == ascending(self@.nodes.dom()),
            lists(r@, self@.nodes.dom()),
            r@.len() == self@.nodes.dom().len(),
    {
        ids_of(&self.nodes)
    }

    /// All edges, in the order of the nodes that they leave.
    pub fn all_edges(&self) -> (r: Vec<Edge>)
        ensures
            r@ == edge_list(self@),
            lists(ascending(self@.sources()), self@.sources()),
    {
        let ids = ids_of(&self.edges.lists.out);
        let ghost g = self@;
        let ghost mut srcs: Seq<TupId> = Seq::empty();
        let mut out: Vec<Edge> = Vec::new();
        let mut i: usize = 0;
        assert(out@ =~= Seq::empty());
        while i < ids.len()
            invariant
                i <= ids@.len(),
                g == self@,
                lists(ids@, self.edges.lists.out@.dom()),
                out@ == edges_from(g, srcs),
                crate::ids::increasing(srcs),
                forall|j: int|
                    0 <= j < srcs.len() ==> g.sources().contains(#[trigger] srcs[j]) && ids@.take(
                        i as int,
                    ).contains(srcs[j]),
                forall|j: int|
                    0 <= j < i && g.sources().contains(#[trigger] ids@[j]) ==> srcs.contains(
                        ids@[j],
                    ),
            decreases ids.len() - i,
        {
            let src = ids[i];
            let links = self.outgoing_edges(src);
            let mut k: usize = 0;
            let ghost before = out@;
            assert(edges_of(src, links@.take(0)) =~= Seq::empty());
            while k < links.len()
                invariant
                    k <= links@.len(),
                    out@ =~= before + edges_of(src, links@.take(k as int)),
                decreases links.len() - k,
            {
                out.push(Edge { src, dest: links[k].0, style: links[k].1 });
                assert(edges_of(src, links@.take(k + 1)) =~= edges_of(
                    src,
                    links@.take(k as int),
                ).push(Edge { src, dest: links@[k as int].0, style: links@[k as int].1 }));
                k += 1;
            }
            assert(links@.take(links@.len() as int) =~= links@);
            proof {
                let old_srcs = srcs;
                assert(ids@.take(i + 1) =~= ids@.take(i as int).push(src));
                assert forall|x: TupId| ids@.take(i as int).contains(x) implies ids@.take(
                    i + 1,
                ).contains(x) by {
                    let j = choose|j: int|
                        0 <= j < ids@.take(i as int).len() && ids@.take(i as int)[j] == x;
                    assert(ids@.take(i + 1)[j] == x);
                }
                if links@.len() > 0 {
                    assert(g.sources().contains(src));
                    let n = old_srcs.push(src);
                    assert(n.drop_last() =~= old_srcs);
                    assert forall|a: int, b: int| 0 <= a < b < n.len() implies (
                    #[trigger] n[a]).0 < (#[trigger] n[b]).0 by {
                        if b == old_srcs.len() {
                            let x = old_srcs[a];
                            assert(ids@.take(i as int).contains(x));
                            let j = choose|j: int|
                                0 <= j < ids@.take(i as int).len() && ids@.take(i as int)[j] == x;
                            assert(ids@[j].0 < ids@[i as int].0);
                        }
                    }
                    assert(ids@.take(i + 1)[i as int] == src);
                    assert forall|j: int| 0 <= j < i + 1 && g.sources().contains(
                        #[trigger] ids@[j],
                    ) implies n.contains(ids@[j]) by {
                        if j < i {
                            let m = choose|m: int|
                                0 <= m < old_srcs.len() && old_srcs[m] == ids@[j];
                            assert(n[m] == ids@[j]);
                        } else {
                            assert(n[old_srcs.len() as int] == src);
                        }
                    }
                    srcs = n;
                } else {
                    assert(!g.sources().contains(src));
                    assert(before + Seq::<Edge>::empty() =~= before);
                }
            }
            i += 1;
        }
        proof {
            assert forall|x: TupId| srcs.contains(x) <==> g.sources().contains(x) by {
                if g.sources().contains(x) {
                    assert(self.edges.lists.out@.dom().contains(x));
                    assert(ids@.contains(x));
                    let j = choose|j: int| 0 <= j < ids@.len() && ids@[j] == x;
                    assert(g.sources().contains(ids@[j]));
                }
            }
            ascending_is_unique(srcs, g.sources());
        }
        out
    }

    fn should_count(&self, node_type: NodeType) -> (r: bool)
        ensures
            r == counts(self.count_flags, node_type),
    {
        self.count_flags == NodeType::Root || node_type == self.count_flags
    }
}

fn copy_links(v: &Vec<Link>) -> (r: Vec<Link>)
    ensures
        r@ == v@,
{
    let mut out: Vec<Link> = Vec::new();
    let mut i: usize = 0;
    while i < v.len()
        invariant
            i <= v@.len(),
            out@ =~= v@.take(i as int),
        decreases v.len() - i,
    {
        out.push(v[i]);
        i += 1;
    }
    assert(v@.take(v@.len() as int) =~= v@);
    out
}

proof fn lemma_occurrences_without(s: Seq<Link>, id: TupId, x: TupId)
    requires
        x != id,
    ensures
        occurrences(links_without(s, set![id]), x) == occurrences(s, x),
    decreases s.len(),
{
    if s.len() > 0 {
        lemma_occurrences_without(s.drop_last(), id, x);
        let before = links_without(s.drop_last(), set![id]);
        if s.last().0 != id {
            assert(before.push(s.last()).drop_last() =~= before);
        }
    }
}

} // verus!
