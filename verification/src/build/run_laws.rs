//! What holds of the order in which commands run.
use vstd::prelude::*;

use crate::build::run::{feeds, next_commands, not_in, share};
use crate::graph::dag::{root_id, GraphText, NodeState};
use crate::graph::walk::is_ready;
use crate::ids::{ascending, ascending_lists, increasing};
use crate::parser::rule::RuleText;
use crate::types::TupId;

verus! {

/// Whether a rule makes a file, as an output or as an extra output.
pub open spec fn makes(r: RuleText, file: Seq<char>) -> bool {
    r.outputs.contains(file) || r.extra_outputs.contains(file)
}

/// Whether a rule uses a file, as an input or as an order-only input.
pub open spec fn uses(r: RuleText, file: Seq<char>) -> bool {
    r.inputs.contains(file) || r.order_only_inputs.contains(file)
}

proof fn lemma_share(a: Seq<Seq<char>>, b: Seq<Seq<char>>)
    ensures
        share(a, b) <==> exists|f: Seq<char>| #[trigger] a.contains(f) && b.contains(f),
{
    if share(a, b) {
        let i = choose|i: int| 0 <= i < a.len() && b.contains(#[trigger] a[i]);
        assert(a.contains(a[i]));
    }
    if exists|f: Seq<char>| #[trigger] a.contains(f) && b.contains(f) {
        let f = choose|f: Seq<char>| #[trigger] a.contains(f) && b.contains(f);
        let i = choose|i: int| 0 <= i < a.len() && a[i] == f;
        assert(b.contains(a[i]));
    }
}

/// A rule feeds another one where it makes a file that the other one uses.
pub proof fn a_rule_feeds_what_uses_its_files(from: RuleText, to: RuleText)
    ensures
        feeds(from, to) <==> exists|f: Seq<char>| #[trigger] makes(from, f) && uses(to, f),
{
    lemma_share(from.outputs, to.inputs);
    lemma_share(from.outputs, to.order_only_inputs);
    lemma_share(from.extra_outputs, to.inputs);
    lemma_share(from.extra_outputs, to.order_only_inputs);
    if feeds(from, to) {
        if share(from.outputs, to.inputs) {
            let f = choose|f: Seq<char>| #[trigger]
                from.outputs.contains(f) && to.inputs.contains(f);
            assert(makes(from, f));
        } else if share(from.outputs, to.order_only_inputs) {
            let f = choose|f: Seq<char>| #[trigger]
                from.outputs.contains(f) && to.order_only_inputs.contains(f);
            assert(makes(from, f));
        } else if share(from.extra_outputs, to.inputs) {
            let f = choose|f: Seq<char>| #[trigger]
                from.extra_outputs.contains(f) && to.inputs.contains(f);
            assert(makes(from, f));
        } else {
            let f = choose|f: Seq<char>| #[trigger]
                from.extra_outputs.contains(f) && to.order_only_inputs.contains(f);
            assert(makes(from, f));
        }
    }
}

/// A node is ready where it has not begun and every node that it waits for is finished or
/// gone.
pub proof fn a_node_waits_for_all_before_it(g: GraphText, id: TupId)
    ensures
        is_ready(g, id) <==> {
            &&& id != root_id()
            &&& g.nodes.dom().contains(id)
            &&& g.nodes[id].state == NodeState::Initialized
            &&& forall|i: int|
                0 <= i < (g.incoming)(id).len() ==> {
                    let before = (#[trigger] (g.incoming)(id)[i]).0;
                    g.nodes.dom().contains(before) ==> g.nodes[before].state == NodeState::Finished
                }
        },
{
}

proof fn lemma_not_in(ids: Seq<TupId>, started: Seq<TupId>, x: TupId)
    ensures
        not_in(ids, started).contains(x) <==> ids.contains(x) && !started.contains(x),
        increasing(ids) ==> increasing(not_in(ids, started)),
    decreases ids.len(),
{
    if ids.len() > 0 {
        let before = ids.drop_last();
        let had = not_in(before, started);
        let now = not_in(ids, started);
        lemma_not_in(before, started, x);
        let last = ids.last();
        assert(ids[ids.len() - 1] == last);
        if before.contains(x) {
            let i = choose|i: int| 0 <= i < before.len() && before[i] == x;
            assert(ids[i] == x);
        }
        if ids.contains(x) {
            let i = choose|i: int| 0 <= i < ids.len() && ids[i] == x;
            if i < before.len() {
                assert(before[i] == x);
            }
        }
        if had.contains(x) {
            let i = choose|i: int| 0 <= i < had.len() && had[i] == x;
            assert(now[i] == x);
        }
        if now.contains(x) {
            let i = choose|i: int| 0 <= i < now.len() && now[i] == x;
            if i < had.len() {
                assert(had[i] == x);
            }
        }
        if !started.contains(last) {
            assert(now[had.len() as int] == last);
        }
        if increasing(ids) {
            assert(increasing(before)) by {
                assert forall|i: int, j: int| 0 <= i < j < before.len() implies (
                #[trigger] before[i]).0 < (#[trigger] before[j]).0 by {
                    assert(before[i] == ids[i] && before[j] == ids[j]);
                }
            }
            assert(increasing(now)) by {
                assert forall|i: int, j: int| 0 <= i < j < now.len() implies (
                #[trigger] now[i]).0 < (#[trigger] now[j]).0 by {
                    assert(now[i] == had[i]);
                    if j < had.len() {
                        assert(now[j] == had[j]);
                    } else {
                        assert(now[j] == last);
                        lemma_from(before, started, i);
                        let k = choose|k: int| 0 <= k < before.len() && before[k] == had[i];
                        assert(ids[k].0 < ids[ids.len() - 1].0);
                    }
                }
            }
        }
    }
}

proof fn lemma_from(ids: Seq<TupId>, started: Seq<TupId>, i: int)
    requires
        0 <= i < not_in(ids, started).len(),
    ensures
        ids.contains(not_in(ids, started)[i]),
    decreases ids.len(),
{
    if ids.len() > 0 {
        let before = ids.drop_last();
        let had = not_in(before, started);
        if i < had.len() {
            lemma_from(before, started, i);
            let k = choose|k: int| 0 <= k < before.len() && before[k] == had[i];
            assert(ids[k] == had[i]);
        } else {
            assert(ids[ids.len() - 1] == not_in(ids, started)[i]);
        }
    }
}

/// What runs next: nothing after a failure, unless the others are to go on; else commands
/// that are ready and have not started, the smallest first, as many as there are jobs, but
/// at least one. Where fewer than that run, every one that is ready runs.
pub proof fn as_many_run_as_may(
    g: GraphText,
    started: Seq<TupId>,
    failed: bool,
    keep_going: bool,
    jobs: usize,
    x: TupId,
)
    ensures
        ({
            let next = next_commands(g, started, failed, keep_going, jobs);
            let most = if jobs == 0 {
                1int
            } else {
                jobs as int
            };
            &&& failed && !keep_going ==> next.len() == 0
            &&& next.len() <= most
            &&& increasing(next)
            &&& !(failed && !keep_going) && is_ready(g, x) && !started.contains(x) ==> {
                &&& next.len() < most ==> next.contains(x)
                &&& next.len() == most ==> next.contains(x) || next.last().0 < x.0
            }
        }),
{
    let ready = Set::new(|x: TupId| is_ready(g, x));
    let ids = ascending(ready);
    ascending_lists(ready);
    lemma_not_in(ids, started, x);
    let waiting = not_in(ids, started);
    let next = next_commands(g, started, failed, keep_going, jobs);
    let most = if jobs == 0 {
        1int
    } else {
        jobs as int
    };
    assert(ids.contains(x) <==> ready.contains(x));
    if !(failed && !keep_going) && waiting.len() > most {
        assert forall|i: int, j: int| 0 <= i < j < next.len() implies (#[trigger] next[i]).0 < (
        #[trigger] next[j]).0 by {
            assert(next[i] == waiting[i] && next[j] == waiting[j]);
        }
        if waiting.contains(x) {
            let k = choose|k: int| 0 <= k < waiting.len() && waiting[k] == x;
            if k < most {
                assert(next[k] == x);
            } else {
                assert(next.last() == waiting[most - 1]);
                assert(waiting[most - 1].0 < waiting[k].0);
            }
        }
    }
}

} // verus!
