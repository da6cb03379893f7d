use ledger::edge::MemoryEdge;
use ledger::hypergraph::HyperGraph;
use ledger::op::Op;

fn make_edge(id: &str, participants: &[&str], locations: &[&str]) -> MemoryEdge {
    let mut ops = Vec::new();
    for p in participants {
        ops.push(Op::AddTrait { entity: p.to_string(), value: "test".into() });
    }
    for l in locations {
        if let Some(p) = participants.first() {
            ops.push(Op::Move { entity: p.to_string(), location: l.to_string() });
        }
    }
    let mut edge = MemoryEdge::from_ops("test_node", 0, &ops);
    edge.id = id.to_string();
    edge
}

fn strings(v: &[&str]) -> Vec<String> {
    v.iter().map(|s| s.to_string()).collect()
}

#[test]
fn test_insert_and_query() {
    let mut g = HyperGraph::new();
    g.insert(make_edge("e1", &["alice", "bob"], &["room_a"]));
    g.insert(make_edge("e2", &["bob", "charlie"], &["room_b"]));
    assert_eq!(g.edge_count(), 2);
    assert_eq!(g.degree("bob"), 2);
    assert_eq!(g.degree("alice"), 1);
}

#[test]
fn test_shared_edges() {
    let mut g = HyperGraph::new();
    g.insert(make_edge("e1", &["alice", "bob"], &[]));
    g.insert(make_edge("e2", &["bob", "charlie"], &[]));
    g.insert(make_edge("e3", &["alice", "bob"], &[]));
    let shared = g.shared_edges("alice", "bob");
    assert_eq!(shared.len(), 2);
    assert!(shared.contains(&"e1"));
    assert!(shared.contains(&"e3"));
}

#[test]
fn test_connected_components() {
    let mut g = HyperGraph::new();
    g.insert(make_edge("e1", &["alice", "bob"], &[]));
    g.insert(make_edge("e2", &["charlie", "dave"], &[]));
    let comps = g.connected_components();
    assert_eq!(comps.len(), 2);
}

#[test]
fn test_neighborhood() {
    let mut g = HyperGraph::new();
    g.insert(make_edge("e1", &["alice", "bob"], &[]));
    g.insert(make_edge("e2", &["bob", "charlie"], &[]));
    let n1 = g.neighborhood("alice", 1);
    assert!(n1.contains(&"alice".to_string()));
    assert!(n1.contains(&"bob".to_string()));
    assert!(!n1.contains(&"charlie".to_string()));
    let n2 = g.neighborhood("alice", 2);
    assert!(n2.contains(&"charlie".to_string()));
}

#[test]
fn test_subgraph() {
    let mut g = HyperGraph::new();
    g.insert(make_edge("e1", &["alice", "bob"], &[]));
    g.insert(make_edge("e2", &["bob", "charlie"], &[]));
    g.insert(make_edge("e3", &["dave"], &[]));
    let sub = g.subgraph_for("bob");
    assert_eq!(sub.edge_count(), 2);
    assert!(sub.edge("e1").is_some());
    assert!(sub.edge("e2").is_some());
    assert!(sub.edge("e3").is_none());
}

#[test]
fn components_exact_and_ordered() {
    let mut g = HyperGraph::new();
    g.insert(make_edge("e2", &["zoe", "bob"], &["hall"]));
    g.insert(make_edge("e1", &["carl"], &[]));
    g.insert(make_edge("e3", &["bob", "amy"], &[]));
    assert_eq!(g.nodes(), vec!["amy", "bob", "carl", "hall", "zoe"]);
    assert_eq!(g.edges_of("bob"), vec!["e2", "e3"]);
    assert_eq!(
        g.connected_components(),
        vec![strings(&["amy", "bob", "hall", "zoe"]), strings(&["carl"])]
    );
    assert_eq!(g.neighborhood("amy", 1), strings(&["amy", "bob"]));
    assert_eq!(g.neighborhood("amy", 0), strings(&["amy"]));
    assert!(g.neighborhood("nobody", 3) == strings(&["nobody"]));
}

#[test]
fn edges_involving_all_and_replace() {
    let mut g = HyperGraph::new();
    g.insert(make_edge("e1", &["a", "b", "c"], &[]));
    g.insert(make_edge("e2", &["a", "b"], &[]));
    g.insert(make_edge("e3", &["a"], &[]));
    assert_eq!(g.edges_involving_all(&["a", "b"]), vec!["e1", "e2"]);
    assert_eq!(g.edges_involving_all(&["a", "b", "c"]), vec!["e1"]);
    assert!(g.edges_involving_all(&["a", "zzz"]).is_empty());
    assert!(g.edges_involving_all(&[]).is_empty());
    g.insert(make_edge("e3", &["d"], &[]));
    assert_eq!(g.edge_count(), 3);
    assert_eq!(g.edge("e3").unwrap().participants, vec!["d"]);
    assert_eq!(g.edges_of("a"), vec!["e1", "e2", "e3"]);
    let sub = g.subgraph_by_edges(&["e2", "missing"]);
    assert_eq!(sub.edge_count(), 1);
    assert_eq!(sub.nodes(), vec!["a", "b"]);
}

#[test]
fn recall_query_counts() {
    let mut g = HyperGraph::new();
    g.insert(make_edge("e1", &["alice", "bob"], &["room_a"]));
    g.insert(make_edge("e2", &["alice", "bob", "carol"], &[]));
    g.insert(make_edge("e3", &["alice"], &[]));
    let c = ledger::evaluator::recall_query(&g, "alice", "bob");
    assert_eq!(c.shared, 2);
    assert_eq!(c.relevant, 2);
    assert_eq!(c.expected, 2);
    assert_eq!(c.found, 2);
    assert_eq!(c.top_hits, strings(&["alice", "bob", "carol"]));
    let none = ledger::evaluator::recall_query(&g, "alice", "dave");
    assert_eq!((none.shared, none.relevant, none.found), (0, 0, 0));
}
