//! Which commands of a directory run next.
use vstd::prelude::*;

use crate::graph::dag::{root_id, Graph, GraphText, Link};
use crate::graph::walk::is_ready;
use crate::ids::{ascending, ascending_lists, has_id};
use crate::parser::rule::{rule_texts, Rule, RuleText};
use crate::text::{same, texts};
use crate::types::{LinkType, NodeType, TupId};

verus! {

/// Whether two lists have a name in common.
pub open spec fn share(a: Seq<Seq<char>>, b: Seq<Seq<char>>) -> bool {
    exists|i: int| 0 <= i < a.len() && b.contains(#[trigger] a[i])
}

/// Whether a rule uses what another makes.
pub open spec fn feeds(from: RuleText, to: RuleText) -> bool {
    ||| share(from.outputs, to.inputs)
    ||| share(from.outputs, to.order_only_inputs)
    ||| share(from.extra_outputs, to.inputs)
    ||| share(from.extra_outputs, to.order_only_inputs)
}

/// The node of a rule.
pub open spec fn rule_id(i: int) -> TupId {
    TupId((i + 1) as i64)
}

/// A graph that holds only the root and counts commands.
pub open spec fn no_rules() -> GraphText {
    GraphText {
        nodes: map![root_id() => crate::graph::dag::fresh_node(root_id(), NodeType::Root)],
        outgoing: |x: TupId| Seq::empty(),
        incoming: |x: TupId| Seq::empty(),
        node_list: seq![root_id()],
        plist: Seq::empty(),
        removing_list: Seq::empty(),
        count_flags: NodeType::Cmd,
        num_nodes: 0,
    }
}

/// The first rules, with no edges.
pub open spec fn rule_nodes(n: nat) -> GraphText
    decreases n,
{
    if n == 0 {
        no_rules()
    } else {
        rule_nodes((n - 1) as nat).with_node(rule_id(n - 1), NodeType::Cmd)
    }
}

/// A graph with the edges from a rule to those of the first rules that it feeds.
pub open spec fn with_uses(g: GraphText, rules: Seq<RuleText>, i: int, n: nat) -> GraphText
    decreases n,
{
    if n == 0 {
        g
    } else {
        let before = with_uses(g, rules, i, (n - 1) as nat);
        if i != n - 1 && feeds(rules[i], rules[n - 1]) {
            before.with_edge(rule_id(i), rule_id(n - 1), LinkType::Normal)
        } else {
            before
        }
    }
}

/// A graph with the edges from the first rules.
pub open spec fn with_all_uses(g: GraphText, rules: Seq<RuleText>, n: nat) -> GraphText
    decreases n,
{
    if n == 0 {
        g
    } else {
        with_uses(with_all_uses(g, rules, (n - 1) as nat), rules, n - 1, rules.len())
    }
}

/// The rules, with an edge from each one to those that use what it makes.
pub open spec fn rule_graph(rules: Seq<RuleText>) -> GraphText {
    with_all_uses(rule_nodes(rules.len()), rules, rules.len())
}

/// Nodes of a list that are not in another.
pub open spec fn not_in(ids: Seq<TupId>, started: Seq<TupId>) -> Seq<TupId>
    decreases ids.len(),
{
    if ids.len() == 0 {
        Seq::empty()
    } else {
        let before = not_in(ids.drop_last(), started);
        if started.contains(ids.last()) {
            before
        } else {
            before.push(ids.last())
        }
    }
}

/// The commands that run next: as many as there are jobs of those that wait for
/// nothing and have not started, and none after a failure unless the others go on.
pub open spec fn next_commands(
    g: GraphText,
    started: Seq<TupId>,
    failed: bool,
    keep_going: bool,
    jobs: usize,
) -> Seq<TupId> {
    let waiting = not_in(ascending(Set::new(|x: TupId| is_ready(g, x))), started);
    let most = if jobs == 0 {
        1
    } else {
        jobs as int
    };
    if failed && !keep_going {
        Seq::empty()
    } else if waiting.len() <= most {
        waiting
    } else {
        waiting.take(most)
    }
}

// ------------------------------------------------ in code

fn lists_share(a: &Vec<String>, b: &Vec<String>) -> (r: bool)
    ensures
        r == share(texts(a@), texts(b@)),
{
    let ghost x = texts(a@);
    let ghost y = texts(b@);
    let mut i: usize = 0;
    while i < a.len()
        invariant
            i <= a.len(),
            x == texts(a@),
            y == texts(b@),
            forall|k: int| 0 <= k < i ==> !y.contains(#[trigger] x[k]),
        decreases a.len() - i,
    {
        let ghost name = x[i as int];
        let mut j: usize = 0;
        while j < b.len()
            invariant
                i < a.len(),
                j <= b.len(),
                x == texts(a@),
                y == texts(b@),
                name == x[i as int],
                forall|k: int| 0 <= k < j ==> #[trigger] y[k] != name,
            decreases b.len() - j,
        {
            assert(y[j as int] == b@[j as int]@);
            if same(a[i].as_str(), b[j].as_str()) {
                assert(y.contains(x[i as int]));
                return true;
            }
            j += 1;
        }
        i += 1;
    }
    false
}

fn rule_feeds(from: &Rule, to: &Rule) -> (r: bool)
    ensures
        r == feeds(from@, to@),
{
    lists_share(&from.outputs, &to.inputs) || lists_share(&from.outputs, &to.order_only_inputs)
        || lists_share(&from.extra_outputs, &to.inputs) || lists_share(
        &from.extra_outputs,
        &to.order_only_inputs,
    )
}

/// How far the commands of a directory are.
#[derive(Debug)]
pub struct Run {
    /// The commands, with an edge from each one to those that use what it makes.
    pub graph: Graph,
    /// The commands that ran or run.
    pub started: Vec<TupId>,
    /// The commands that failed.
    pub failed: Vec<TupId>,
}

proof fn lemma_rule_nodes(n: nat)
    requires
        n < i64::MAX,
    ensures
        rule_nodes(n).num_nodes <= n,
        rule_nodes(n).num_nodes <= usize::MAX,
        forall|x: TupId| #[trigger]
            rule_nodes(n).nodes.dom().contains(x) <==> x == root_id() || 1 <= x.0 <= n,
        forall|x: TupId| #[trigger]
            rule_nodes(n).nodes.dom().contains(x) ==> rule_nodes(n).nodes[x].state
                == crate::graph::dag::NodeState::Initialized,
        rule_nodes(n).incoming == no_rules().incoming,
        rule_nodes(n).outgoing == no_rules().outgoing,
    decreases n,
{
    if n > 0 {
        lemma_rule_nodes((n - 1) as nat);
        let b = rule_nodes((n - 1) as nat);
        let id = rule_id(n - 1);
        assert(id.0 == n);
        assert(!b.nodes.dom().contains(id));
    }
}

/// Edges change no nodes.
proof fn lemma_uses_nodes(g: GraphText, rules: Seq<RuleText>, i: int, n: nat)
    ensures
        with_uses(g, rules, i, n).nodes == g.nodes,
    decreases n,
{
    if n > 0 {
        lemma_uses_nodes(g, rules, i, (n - 1) as nat);
    }
}

proof fn lemma_all_uses_nodes(g: GraphText, rules: Seq<RuleText>, n: nat)
    ensures
        with_all_uses(g, rules, n).nodes == g.nodes,
    decreases n,
{
    if n > 0 {
        lemma_all_uses_nodes(g, rules, (n - 1) as nat);
        lemma_uses_nodes(with_all_uses(g, rules, (n - 1) as nat), rules, n - 1, rules.len());
    }
}

fn node_of(i: usize) -> (r: TupId)
    requires
        i < i64::MAX,
    ensures
        r == rule_id(i as int),
{
    TupId::new(i as i64 + 1)
}

impl Run {
    /// The commands of rules, of which none ran.
    pub fn new(rules: &[Rule]) -> (r: Run)
        requires
            rules@.len() < i64::MAX,
        ensures
            r.graph@ == rule_graph(rule_texts(rules@)),
            r.started@.len() == 0,
            r.failed@.len() == 0,
    {
        let ghost all = rule_texts(rules@);
        let mut graph = Graph::new(NodeType::Cmd);
        let mut i: usize = 0;
        assert(graph@ == no_rules());
        while i < rules.len()
            invariant
                i <= rules.len(),
                rules@.len() < i64::MAX,
                graph@ == rule_nodes(i as nat),
            decreases rules.len() - i,
        {
            proof {
                lemma_rule_nodes(i as nat);
            }
            let _ = graph.create_node(node_of(i), NodeType::Cmd);
            i += 1;
        }
        let ghost nodes = rule_nodes(rules@.len());
        proof {
            lemma_rule_nodes(rules@.len());
        }
        let mut k: usize = 0;
        while k < rules.len()
            invariant
                k <= rules.len(),
                rules@.len() < i64::MAX,
                all == rule_texts(rules@),
                nodes == rule_nodes(rules@.len()),
                forall|x: TupId| !#[trigger] nodes.in_process(x),
                graph@ == with_all_uses(nodes, all, k as nat),
            decreases rules.len() - k,
        {
            let ghost g = graph@;
            proof {
                lemma_all_uses_nodes(nodes, all, k as nat);
            }
            let mut j: usize = 0;
            while j < rules.len()
                invariant
                    k < rules.len(),
                    j <= rules.len(),
                    rules@.len() < i64::MAX,
                    all == rule_texts(rules@),
                    forall|x: TupId| !#[trigger] nodes.in_process(x),
                    g.nodes == nodes.nodes,
                    graph@ == with_uses(g, all, k as int, j as nat),
                decreases rules.len() - j,
            {
                proof {
                    lemma_uses_nodes(g, all, k as int, j as nat);
                    assert(!nodes.in_process(rule_id(j as int)));
                }
                if k != j && rule_feeds(&rules[k], &rules[j]) {
                    let _ = graph.create_edge(node_of(k), node_of(j), LinkType::Normal);
                }
                j += 1;
            }
            k += 1;
        }
        Run { graph, started: Vec::new(), failed: Vec::new() }
    }

    /// The commands that run next. There are none when all is done that can be.
    pub fn next(&self, keep_going: bool, jobs: usize) -> (r: Vec<TupId>)
        ensures
            r@ == next_commands(
                self.graph@,
                self.started@,
                self.failed@.len() > 0,
                keep_going,
                jobs,
            ),
    {
        let mut out: Vec<TupId> = Vec::new();
        if self.failed.len() > 0 && !keep_going {
            assert(out@ =~= Seq::empty());
            return out;
        }
        let most: usize = if jobs == 0 {
            1
        } else {
            jobs
        };
        let ready = self.graph.ready_nodes();
        let ghost ids = ready@;
        let mut i: usize = 0;
        assert(ids.take(0) =~= Seq::empty());
        assert(out@ =~= Seq::empty());
        while i < ready.len()
            invariant
                i <= ready.len(),
                ids == ready@,
                most > 0,
                out@.len() <= most,
                ({
                    let all = not_in(ids.take(i as int), self.started@);
                    out@ == if all.len() <= most {
                        all
                    } else {
                        all.take(most as int)
                    }
                }),
            decreases ready.len() - i,
        {
            let ghost all = not_in(ids.take(i as int), self.started@);
            let id = ready[i];
            proof {
                assert(ids.take(i + 1).drop_last() =~= ids.take(i as int));
                assert(ids.take(i + 1).last() == id);
            }
            if !has_id(&self.started, id) {
                if out.len() < most {
                    out.push(id);
                    assert(out@ =~= all.push(id));
                } else {
                    assert(all.push(id).take(most as int) =~= out@);
                }
            }
            i += 1;
        }
        assert(ids.take(ids.len() as int) =~= ids);
        out
    }

    /// Takes note of a command that ran, and of whether it succeeded.
    pub fn note(&mut self, id: TupId, ok: bool)
        ensures
            final(self).started@ == old(self).started@.push(id),
            ok ==> final(self).failed@ == old(self).failed@,
            !ok ==> final(self).failed@ == old(self).failed@.push(id) && final(self).graph@ == old(
                self,
            ).graph@,
            ok ==> final(self).graph@ == old(self).graph@.finished(id),
    {
        self.started.push(id);
        if ok {
            self.graph.finish_node(id);
        } else {
            self.failed.push(id);
        }
    }
}

// ------------------------------------------------ what holds of the order

/// Whether a list has a normal link to a node.
pub open spec fn has_edge(links: Seq<Link>, id: TupId) -> bool {
    links.contains((id, LinkType::Normal))
}

proof fn lemma_pushed(links: Seq<Link>, l: Link, m: Link)
    ensures
        links.push(l).contains(m) <==> links.contains(m) || l == m,
{
    if links.contains(m) {
        let i = choose|i: int| 0 <= i < links.len() && links[i] == m;
        assert(links.push(l)[i] == m);
    }
    if l == m {
        assert(links.push(l)[links.len() as int] == m);
    }
    if links.push(l).contains(m) && l != m {
        let i = choose|i: int| 0 <= i < links.len() + 1 && links.push(l)[i] == m;
        assert(links[i] == m);
    }
}

proof fn lemma_uses_edges(g: GraphText, rules: Seq<RuleText>, i: int, n: nat, a: int, b: int)
    requires
        0 <= i < rules.len() < i64::MAX,
        0 <= a < rules.len(),
        0 <= b < rules.len(),
        n <= rules.len(),
    ensures
        ({
            let h = with_uses(g, rules, i, n);
            has_edge((h.incoming)(rule_id(b)), rule_id(a)) <==> has_edge(
                (g.incoming)(rule_id(b)),
                rule_id(a),
            ) || (a == i && b < n && a != b && feeds(rules[a], rules[b]))
        }),
    decreases n,
{
    if n > 0 {
        lemma_uses_edges(g, rules, i, (n - 1) as nat, a, b);
        let before = with_uses(g, rules, i, (n - 1) as nat);
        if i != n - 1 && feeds(rules[i], rules[n - 1]) {
            lemma_pushed(
                (before.incoming)(rule_id(b)),
                (rule_id(i), LinkType::Normal),
                (rule_id(a), LinkType::Normal),
            );
        }
    }
}

proof fn lemma_all_uses_edges(g: GraphText, rules: Seq<RuleText>, n: nat, a: int, b: int)
    requires
        rules.len() < i64::MAX,
        0 <= a < rules.len(),
        0 <= b < rules.len(),
        n <= rules.len(),
    ensures
        ({
            let h = with_all_uses(g, rules, n);
            has_edge((h.incoming)(rule_id(b)), rule_id(a)) <==> has_edge(
                (g.incoming)(rule_id(b)),
                rule_id(a),
            ) || (a < n && a != b && feeds(rules[a], rules[b]))
        }),
    decreases n,
{
    if n > 0 {
        lemma_all_uses_edges(g, rules, (n - 1) as nat, a, b);
        lemma_uses_edges(
            with_all_uses(g, rules, (n - 1) as nat),
            rules,
            n - 1,
            rules.len(),
            a,
            b,
        );
    }
}

/// Every rule is a node, and has an edge from exactly the other rules that make
/// what it uses.
pub proof fn rules_wait_for_what_they_use(rules: Seq<RuleText>, a: int, b: int)
    requires
        rules.len() < i64::MAX,
        0 <= a < rules.len(),
        0 <= b < rules.len(),
    ensures
        rule_graph(rules).nodes.dom().contains(rule_id(b)),
        has_edge((rule_graph(rules).incoming)(rule_id(b)), rule_id(a)) <==> a != b && feeds(
            rules[a],
            rules[b],
        ),
{
    lemma_rule_nodes(rules.len());
    lemma_all_uses_nodes(rule_nodes(rules.len()), rules, rules.len());
    lemma_all_uses_edges(rule_nodes(rules.len()), rules, rules.len(), a, b);
    assert((rule_nodes(rules.len()).incoming)(rule_id(b)) == Seq::<Link>::empty());
}

proof fn lemma_not_in(ids: Seq<TupId>, started: Seq<TupId>)
    ensures
        forall|i: int|
            0 <= i < not_in(ids, started).len() ==> ids.contains(
                #[trigger] not_in(ids, started)[i],
            ) && !started.contains(not_in(ids, started)[i]),
    decreases ids.len(),
{
    if ids.len() > 0 {
        let b = ids.drop_last();
        lemma_not_in(b, started);
        let r = not_in(ids, started);
        let before = not_in(b, started);
        assert forall|i: int| 0 <= i < r.len() implies ids.contains(#[trigger] r[i])
            && !started.contains(r[i]) by {
            if i < before.len() {
                assert(r[i] == before[i]);
                let k = choose|k: int| 0 <= k < b.len() && b[k] == before[i];
                assert(ids[k] == r[i]);
            } else {
                assert(ids[ids.len() - 1] == r[i]);
            }
        }
    }
}

/// What runs next has not started, and waits for nothing.
pub proof fn nothing_runs_early_or_twice(
    g: GraphText,
    started: Seq<TupId>,
    failed: bool,
    keep_going: bool,
    jobs: usize,
    id: TupId,
)
    requires
        next_commands(g, started, failed, keep_going, jobs).contains(id),
    ensures
        is_ready(g, id),
        !started.contains(id),
{
    let ready = Set::new(|x: TupId| is_ready(g, x));
    let ids = ascending(ready);
    ascending_lists(ready);
    lemma_not_in(ids, started);
    let all = not_in(ids, started);
    let r = next_commands(g, started, failed, keep_going, jobs);
    let i = choose|i: int| 0 <= i < r.len() && r[i] == id;
    assert(all[i] == id);
    assert(ids.contains(id));
    assert(ready.contains(id));
}

} // verus!
