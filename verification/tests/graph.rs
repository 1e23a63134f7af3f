//! Graphs of nodes and dependencies.
use tup::graph::dag::{Graph, GraphNode, NodeState};
use tup::types::{LinkType, NodeType, TupId};

fn set_state(g: &mut Graph, id: TupId, state: NodeState) {
    let node = GraphNode { state, ..*g.find_node(id).unwrap() };
    assert!(g.set_node(id, node));
}

#[test]
fn test_create_graph() {
    let g = Graph::new(NodeType::Cmd);
    assert!(g.is_empty());
    assert_eq!(g.node_count(), 0);
    assert!(g.contains(TupId::new(0))); // Root exists
}

#[test]
fn test_create_node() {
    let mut g = Graph::new(NodeType::Cmd);
    g.create_node(TupId::new(1), NodeType::File);
    g.create_node(TupId::new(2), NodeType::Cmd);

    assert_eq!(g.node_count(), 2);
    assert!(g.contains(TupId::new(1)));
    assert!(g.contains(TupId::new(2)));
    assert!(!g.contains(TupId::new(99)));
}

#[test]
fn test_create_node_idempotent() {
    let mut g = Graph::new(NodeType::Cmd);
    g.create_node(TupId::new(1), NodeType::File);
    g.create_node(TupId::new(1), NodeType::File);
    assert_eq!(g.node_count(), 1);
}

#[test]
fn test_create_edge() {
    let mut g = Graph::new(NodeType::Cmd);
    g.create_node(TupId::new(1), NodeType::File);
    g.create_node(TupId::new(2), NodeType::Cmd);

    g.create_edge(TupId::new(1), TupId::new(2), LinkType::Normal)
        .unwrap();

    let out = g.outgoing_edges(TupId::new(1));
    assert_eq!(out.len(), 1);
    assert_eq!(out[0], (TupId::new(2), LinkType::Normal));

    let inc = g.incoming_edges(TupId::new(2));
    assert_eq!(inc.len(), 1);
    assert_eq!(inc[0], (TupId::new(1), LinkType::Normal));
}

#[test]
fn test_circular_dependency_detection() {
    let mut g = Graph::new(NodeType::Cmd);
    let a = TupId::new(1);
    let b = TupId::new(2);
    g.create_node(a, NodeType::Cmd);
    g.create_node(b, NodeType::Cmd);

    // Set node a to Processing state
    set_state(&mut g, a, NodeState::Processing);

    // Trying to create edge to a Processing node should fail
    let result = g.create_edge(b, a, LinkType::Normal);
    assert!(result.is_err());
}

#[test]
fn test_remove_node() {
    let mut g = Graph::new(NodeType::Cmd);
    g.create_node(TupId::new(1), NodeType::File);
    g.create_node(TupId::new(2), NodeType::Cmd);
    g.create_edge(TupId::new(1), TupId::new(2), LinkType::Normal)
        .unwrap();

    g.remove_node(TupId::new(1));
    assert!(!g.contains(TupId::new(1)));
    assert!(g.incoming_edges(TupId::new(2)).is_empty());
}

#[test]
fn test_remove_edges() {
    let mut g = Graph::new(NodeType::Cmd);
    g.create_node(TupId::new(1), NodeType::File);
    g.create_node(TupId::new(2), NodeType::Cmd);
    g.create_node(TupId::new(3), NodeType::Generated);
    g.create_edge(TupId::new(1), TupId::new(2), LinkType::Normal)
        .unwrap();
    g.create_edge(TupId::new(2), TupId::new(3), LinkType::Normal)
        .unwrap();

    g.remove_edges(TupId::new(2));
    assert!(g.outgoing_edges(TupId::new(2)).is_empty());
    assert!(g.incoming_edges(TupId::new(2)).is_empty());
    // Other nodes should still exist
    assert!(g.contains(TupId::new(1)));
    assert!(g.contains(TupId::new(3)));
}

#[test]
fn test_plist_operations() {
    let mut g = Graph::new(NodeType::Cmd);
    let a = TupId::new(1);
    let b = TupId::new(2);
    g.create_node(a, NodeType::Cmd);
    g.create_node(b, NodeType::Cmd);

    assert!(g.plist_is_empty());

    g.push_plist(a);
    g.push_plist(b);
    assert!(!g.plist_is_empty());

    // LIFO order
    assert_eq!(g.pop_plist(), Some(b));
    assert_eq!(g.pop_plist(), Some(a));
    assert!(g.plist_is_empty());
}

#[test]
fn test_finish_node() {
    let mut g = Graph::new(NodeType::Cmd);
    let id = TupId::new(1);
    g.create_node(id, NodeType::Cmd);
    g.push_plist(id);

    g.finish_node(id);
    assert_eq!(g.find_node(id).unwrap().state, NodeState::Finished);
    assert!(g.plist_is_empty());
}

#[test]
fn test_topological_sort_simple() {
    let mut g = Graph::new(NodeType::Cmd);
    let a = TupId::new(1);
    let b = TupId::new(2);
    let c = TupId::new(3);
    g.create_node(a, NodeType::File);
    g.create_node(b, NodeType::Cmd);
    g.create_node(c, NodeType::Generated);
    g.create_edge(a, b, LinkType::Normal).unwrap();
    g.create_edge(b, c, LinkType::Normal).unwrap();

    let sorted = g.topological_sort().unwrap();
    let pos_a = sorted.iter().position(|&x| x == a).unwrap();
    let pos_b = sorted.iter().position(|&x| x == b).unwrap();
    let pos_c = sorted.iter().position(|&x| x == c).unwrap();
    assert!(pos_a < pos_b);
    assert!(pos_b < pos_c);
}

#[test]
fn test_topological_sort_cycle() {
    let mut g = Graph::new(NodeType::Cmd);
    let a = TupId::new(1);
    let b = TupId::new(2);
    g.create_node(a, NodeType::Cmd);
    g.create_node(b, NodeType::Cmd);
    g.create_edge(a, b, LinkType::Normal).unwrap();
    g.create_edge(b, a, LinkType::Normal).unwrap();

    assert!(g.has_cycles());
    assert!(g.topological_sort().is_none());
}

#[test]
fn test_find_cycle_nodes() {
    let mut g = Graph::new(NodeType::Cmd);
    let a = TupId::new(1);
    let b = TupId::new(2);
    let c = TupId::new(3); // Not in cycle
    g.create_node(a, NodeType::Cmd);
    g.create_node(b, NodeType::Cmd);
    g.create_node(c, NodeType::File);

    // Create a→b→a cycle
    g.create_edge(a, b, LinkType::Normal).unwrap();
    g.create_edge(b, a, LinkType::Normal).unwrap();

    // c is a leaf, not in cycle
    g.create_edge(c, a, LinkType::Normal).unwrap();

    let cycle_nodes = g.find_cycle_nodes();
    assert!(cycle_nodes.contains(&a));
    assert!(cycle_nodes.contains(&b));
    assert!(!cycle_nodes.contains(&c));
}

#[test]
fn test_trim_removes_leaves() {
    let mut g = Graph::new(NodeType::Cmd);
    let a = TupId::new(1);
    let b = TupId::new(2);
    let c = TupId::new(3);
    g.create_node(a, NodeType::File);
    g.create_node(b, NodeType::Cmd);
    g.create_node(c, NodeType::Generated);
    g.create_edge(a, b, LinkType::Normal).unwrap();
    g.create_edge(b, c, LinkType::Normal).unwrap();

    // All nodes are leaves (a has no incoming, c has no outgoing)
    g.trim();
    assert!(g.is_empty()); // Only root left
}

#[test]
fn test_trim_preserves_cycles() {
    let mut g = Graph::new(NodeType::Cmd);
    let a = TupId::new(1);
    let b = TupId::new(2);
    g.create_node(a, NodeType::Cmd);
    g.create_node(b, NodeType::Cmd);

    // Create cycle
    g.create_edge(a, b, LinkType::Normal).unwrap();
    g.create_edge(b, a, LinkType::Normal).unwrap();

    g.trim();
    assert!(g.contains(a));
    assert!(g.contains(b));
}

#[test]
fn test_counting() {
    let mut g = Graph::new(NodeType::Cmd);
    g.create_node(TupId::new(1), NodeType::File);
    g.create_node(TupId::new(2), NodeType::Cmd);
    g.create_node(TupId::new(3), NodeType::Cmd);
    g.create_node(TupId::new(4), NodeType::Generated);

    // Only CMD nodes counted
    assert_eq!(g.counted_nodes(), 2);
}

#[test]
fn test_counting_all() {
    let mut g = Graph::new(NodeType::Root); // Root = count all
    g.create_node(TupId::new(1), NodeType::File);
    g.create_node(TupId::new(2), NodeType::Cmd);
    assert_eq!(g.counted_nodes(), 2);
}

#[test]
fn test_all_edges() {
    let mut g = Graph::new(NodeType::Cmd);
    g.create_node(TupId::new(1), NodeType::File);
    g.create_node(TupId::new(2), NodeType::Cmd);
    g.create_node(TupId::new(3), NodeType::Generated);
    g.create_edge(TupId::new(1), TupId::new(2), LinkType::Normal)
        .unwrap();
    g.create_edge(TupId::new(2), TupId::new(3), LinkType::Normal)
        .unwrap();
    g.create_edge(TupId::new(1), TupId::new(2), LinkType::Sticky)
        .unwrap();

    let edges = g.all_edges();
    assert_eq!(edges.len(), 3);
}

#[test]
fn test_to_dot() {
    let mut g = Graph::new(NodeType::Cmd);
    g.create_node(TupId::new(1), NodeType::File);
    g.create_node(TupId::new(2), NodeType::Cmd);
    g.create_edge(TupId::new(1), TupId::new(2), LinkType::Normal)
        .unwrap();

    let dot = g.to_dot();
    assert!(dot.contains("digraph G"));
    assert!(dot.contains("n1"));
    assert!(dot.contains("n2"));
    assert!(dot.contains("n1 -> n2"));
}

#[test]
fn test_node_state_transitions() {
    let mut g = Graph::new(NodeType::Cmd);
    let id = TupId::new(1);
    g.create_node(id, NodeType::Cmd);

    assert_eq!(g.find_node(id).unwrap().state, NodeState::Initialized);

    set_state(&mut g, id, NodeState::Processing);
    assert_eq!(g.find_node(id).unwrap().state, NodeState::Processing);

    g.finish_node(id);
    assert_eq!(g.find_node(id).unwrap().state, NodeState::Finished);
}

#[test]
fn test_diamond_dependency() {
    // A → B, A → C, B → D, C → D
    let mut g = Graph::new(NodeType::Cmd);
    let a = TupId::new(1);
    let b = TupId::new(2);
    let c = TupId::new(3);
    let d = TupId::new(4);
    g.create_node(a, NodeType::File);
    g.create_node(b, NodeType::Cmd);
    g.create_node(c, NodeType::Cmd);
    g.create_node(d, NodeType::Generated);
    g.create_edge(a, b, LinkType::Normal).unwrap();
    g.create_edge(a, c, LinkType::Normal).unwrap();
    g.create_edge(b, d, LinkType::Normal).unwrap();
    g.create_edge(c, d, LinkType::Normal).unwrap();

    let sorted = g.topological_sort().unwrap();
    let pos_a = sorted.iter().position(|&x| x == a).unwrap();
    let pos_b = sorted.iter().position(|&x| x == b).unwrap();
    let pos_c = sorted.iter().position(|&x| x == c).unwrap();
    let pos_d = sorted.iter().position(|&x| x == d).unwrap();

    assert!(pos_a < pos_b);
    assert!(pos_a < pos_c);
    assert!(pos_b < pos_d);
    assert!(pos_c < pos_d);
}

#[test]
fn test_prune_keeps_target_and_deps() {
    // a.c → gcc → a.o
    // b.c → gcc2 → b.o
    let mut g = Graph::new(NodeType::Cmd);
    let a = TupId::new(1);
    let cmd1 = TupId::new(2);
    let ao = TupId::new(3);
    let b = TupId::new(4);
    let cmd2 = TupId::new(5);
    let bo = TupId::new(6);

    g.create_node(a, NodeType::File);
    g.create_node(cmd1, NodeType::Cmd);
    g.create_node(ao, NodeType::Generated);
    g.create_node(b, NodeType::File);
    g.create_node(cmd2, NodeType::Cmd);
    g.create_node(bo, NodeType::Generated);

    g.create_edge(a, cmd1, LinkType::Normal).unwrap();
    g.create_edge(cmd1, ao, LinkType::Normal).unwrap();
    g.create_edge(b, cmd2, LinkType::Normal).unwrap();
    g.create_edge(cmd2, bo, LinkType::Normal).unwrap();

    // Prune to only a.o
    let pruned = g.prune(&[ao]);
    assert_eq!(pruned, 3); // b, cmd2, bo removed
    assert!(g.contains(a));
    assert!(g.contains(cmd1));
    assert!(g.contains(ao));
    assert!(!g.contains(b));
    assert!(!g.contains(cmd2));
    assert!(!g.contains(bo));
}

#[test]
fn test_prune_empty_targets() {
    let mut g = Graph::new(NodeType::Cmd);
    g.create_node(TupId::new(1), NodeType::File);
    let pruned = g.prune(&[]);
    assert_eq!(pruned, 0);
}

#[test]
fn test_leaf_nodes() {
    let mut g = Graph::new(NodeType::Cmd);
    let a = TupId::new(1);
    let b = TupId::new(2);
    let c = TupId::new(3);
    g.create_node(a, NodeType::File);
    g.create_node(b, NodeType::Cmd);
    g.create_node(c, NodeType::Generated);
    g.create_edge(a, b, LinkType::Normal).unwrap();
    g.create_edge(b, c, LinkType::Normal).unwrap();

    let leaves = g.leaf_nodes();
    assert_eq!(leaves, vec![a]); // a has no incoming
}

#[test]
fn test_ready_nodes() {
    let mut g = Graph::new(NodeType::Cmd);
    let a = TupId::new(1);
    let b = TupId::new(2);
    let c = TupId::new(3);
    g.create_node(a, NodeType::File);
    g.create_node(b, NodeType::Cmd);
    g.create_node(c, NodeType::Cmd);
    g.create_edge(a, b, LinkType::Normal).unwrap();
    g.create_edge(a, c, LinkType::Normal).unwrap();

    // Nothing is finished, so only nodes with no deps are ready
    // a has no incoming, so it's ready. b and c depend on a.
    let ready = g.ready_nodes();
    assert_eq!(ready, vec![a]);

    // Finish a
    g.finish_node(a);
    let ready = g.ready_nodes();
    assert!(ready.contains(&b));
    assert!(ready.contains(&c));
}

#[test]
fn a_circular_dependency_is_told() {
    let mut g = Graph::new(NodeType::Cmd);
    let a = TupId::new(1);
    let b = TupId::new(2);
    g.create_node(a, NodeType::Cmd);
    g.create_node(b, NodeType::Cmd);
    set_state(&mut g, a, NodeState::Processing);
    let e = g.create_edge(b, a, LinkType::Sticky).unwrap_err();
    assert_eq!(e.message(), "circular dependency: 2 -> 1 (sticky)");
    assert!(g.outgoing_edges(b).is_empty());
}

#[test]
fn removing_a_node_leaves_no_edge_to_it() {
    let mut g = Graph::new(NodeType::Root);
    for i in 1..4 {
        g.create_node(TupId::new(i), NodeType::Cmd);
    }
    g.create_edge(TupId::new(1), TupId::new(2), LinkType::Normal).unwrap();
    g.create_edge(TupId::new(2), TupId::new(3), LinkType::Sticky).unwrap();
    g.create_edge(TupId::new(3), TupId::new(1), LinkType::Normal).unwrap();
    g.remove_node(TupId::new(2));
    let edges = g.all_edges();
    assert_eq!(edges.len(), 1);
    assert_eq!(g.outgoing_edges(TupId::new(3)), vec![(TupId::new(1), LinkType::Normal)]);
    assert!(g.outgoing_edges(TupId::new(1)).is_empty());
}

#[test]
fn a_graph_has_an_order_or_a_cycle() {
    let mut g = Graph::new(NodeType::Root);
    for i in 1..6 {
        g.create_node(TupId::new(i), NodeType::Cmd);
    }
    for i in 1..5 {
        g.create_edge(TupId::new(i), TupId::new(i + 1), LinkType::Normal).unwrap();
    }
    assert!(!g.has_cycles());
    let order = g.topological_sort().unwrap();
    assert_eq!(order.len(), 5 + 1);
    assert!(g.find_cycle_nodes().is_empty());
    g.create_edge(TupId::new(5), TupId::new(2), LinkType::Normal).unwrap();
    assert!(g.has_cycles());
    assert!(g.topological_sort().is_none());
    let cycle = g.find_cycle_nodes();
    assert_eq!(cycle.len(), 4);
    assert!(!cycle.contains(&TupId::new(1)));
}
