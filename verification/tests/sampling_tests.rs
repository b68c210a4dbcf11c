use graph_sampling::graph::{GraphEdge, GraphNode, Property};
use graph_sampling::protocol::ProtocolVersionResult;
use graph_sampling::sampling::{frontier_sample, random_sample, random_walk_sample};

fn node(id: &str) -> GraphNode {
    GraphNode { id: id.to_string(), labels: vec!["Node".to_string()], properties: Vec::new() }
}

fn edge(id: &str, source: &str, target: &str) -> GraphEdge {
    GraphEdge {
        id: id.to_string(),
        source: source.to_string(),
        target: target.to_string(),
        edge_type: "CONNECTS".to_string(),
        properties: Vec::new(),
    }
}

/// Ten nodes `n0..n9`; edges form two chains from `n0`:
/// `n0-n1-n2-n3-n4` and `n0-n5-n6-n7-n8-n9`.
fn create_test_graph() -> (Vec<GraphNode>, Vec<GraphEdge>) {
    let nodes: Vec<GraphNode> = (0..10).map(|i| node(&format!("n{}", i))).collect();
    let pairs = [
        ("n0", "n1"),
        ("n1", "n2"),
        ("n2", "n3"),
        ("n3", "n4"),
        ("n0", "n5"),
        ("n5", "n6"),
        ("n6", "n7"),
        ("n7", "n8"),
        ("n8", "n9"),
    ];
    let edges: Vec<GraphEdge> = pairs
        .iter()
        .enumerate()
        .map(|(i, (s, t))| edge(&format!("e{}", i), s, t))
        .collect();
    (nodes, edges)
}

fn sorted_ids(nodes: &[GraphNode]) -> Vec<String> {
    let mut ids: Vec<String> = nodes.iter().map(|n| n.id.clone()).collect();
    ids.sort();
    ids
}

fn sorted_edge_ids(edges: &[GraphEdge]) -> Vec<String> {
    let mut ids: Vec<String> = edges.iter().map(|e| e.id.clone()).collect();
    ids.sort();
    ids
}

#[test]
fn test_random_sample() {
    let (nodes, edges) = create_test_graph();
    let result = random_sample(&nodes, &edges, 5);

    assert_eq!(result.sampled_nodes.len(), 5);
}

#[test]
fn test_random_walk() {
    let (nodes, edges) = create_test_graph();
    let result = random_walk_sample(&nodes, &edges, &"n0".to_string(), 5, 3);

    assert!(!result.sampled_nodes.is_empty());
    assert!(result.sampled_nodes.iter().any(|n| n.id == "n0"));
}

#[test]
fn test_frontier_sample() {
    let (nodes, edges) = create_test_graph();
    let result = frontier_sample(&nodes, &edges, &vec!["n0".to_string()], 5);

    assert!(result.sampled_nodes.len() <= 5);
    assert!(result.sampled_nodes.iter().any(|n| n.id == "n0"));
}

#[test]
fn random_sample_no_duplicates_and_induced_edges() {
    let (nodes, edges) = create_test_graph();
    let result = random_sample(&nodes, &edges, 7);
    assert_eq!(result.sampled_nodes.len(), 7);
    let ids = sorted_ids(&result.sampled_nodes);
    for w in ids.windows(2) {
        assert_ne!(w[0], w[1]);
    }
    for e in &result.sampled_edges {
        assert!(ids.contains(&e.source));
        assert!(ids.contains(&e.target));
    }
}

#[test]
fn random_sample_count_zero_is_empty() {
    let (nodes, edges) = create_test_graph();
    let result = random_sample(&nodes, &edges, 0);
    assert!(result.sampled_nodes.is_empty());
    assert!(result.sampled_edges.is_empty());
}

#[test]
fn random_sample_count_above_len_returns_everything() {
    let (nodes, edges) = create_test_graph();
    let result = random_sample(&nodes, &edges, 12);
    assert_eq!(
        sorted_ids(&result.sampled_nodes),
        vec!["n0", "n1", "n2", "n3", "n4", "n5", "n6", "n7", "n8", "n9"]
    );
    assert_eq!(
        sorted_edge_ids(&result.sampled_edges),
        vec!["e0", "e1", "e2", "e3", "e4", "e5", "e6", "e7", "e8"]
    );
}

#[test]
fn random_sample_preserves_node_contents() {
    let mut n = node("p");
    n.properties.push(Property { name: "weight".to_string(), value: serde_json::Value::from(42) });
    let nodes = vec![n];
    let no_edges: Vec<GraphEdge> = Vec::new();
    let result = random_sample(&nodes, &no_edges, 1);
    assert_eq!(result.sampled_nodes.len(), 1);
    assert_eq!(result.sampled_nodes[0].labels, vec!["Node".to_string()]);
    assert_eq!(result.sampled_nodes[0].properties.len(), 1);
    assert_eq!(result.sampled_nodes[0].properties[0].name, "weight");
    assert_eq!(result.sampled_nodes[0].properties[0].value, serde_json::Value::from(42));
}

#[test]
fn random_walk_zero_length_is_start_only() {
    let (nodes, edges) = create_test_graph();
    let result = random_walk_sample(&nodes, &edges, &"n0".to_string(), 0, 1);
    assert_eq!(sorted_ids(&result.sampled_nodes), vec!["n0"]);
    assert!(result.sampled_edges.is_empty());
}

#[test]
fn random_walk_isolated_start_is_start_only() {
    let (mut nodes, edges) = create_test_graph();
    nodes.push(node("lonely"));
    let result = random_walk_sample(&nodes, &edges, &"lonely".to_string(), 4, 3);
    assert_eq!(sorted_ids(&result.sampled_nodes), vec!["lonely"]);
    assert!(result.sampled_edges.is_empty());
}

#[test]
fn random_walk_zero_walks_is_empty() {
    let (nodes, edges) = create_test_graph();
    let result = random_walk_sample(&nodes, &edges, &"n0".to_string(), 5, 0);
    assert!(result.sampled_nodes.is_empty());
    assert!(result.sampled_edges.is_empty());
}

#[test]
fn random_walk_edges_connect_returned_nodes() {
    let (nodes, edges) = create_test_graph();
    let result = random_walk_sample(&nodes, &edges, &"n0".to_string(), 6, 4);
    let ids = sorted_ids(&result.sampled_nodes);
    for e in &result.sampled_edges {
        assert!(ids.contains(&e.source));
        assert!(ids.contains(&e.target));
    }
}

#[test]
fn random_walk_self_loop_stays_put() {
    let nodes = vec![node("a")];
    let edges = vec![edge("loop", "a", "a")];
    let result = random_walk_sample(&nodes, &edges, &"a".to_string(), 3, 2);
    assert_eq!(sorted_ids(&result.sampled_nodes), vec!["a"]);
    assert_eq!(sorted_edge_ids(&result.sampled_edges), vec!["loop"]);
}

#[test]
fn frontier_zero_budget_is_empty() {
    let (nodes, edges) = create_test_graph();
    let result = frontier_sample(&nodes, &edges, &vec!["n0".to_string(), "n3".to_string()], 0);
    assert!(result.sampled_nodes.is_empty());
    assert!(result.sampled_edges.is_empty());
}

#[test]
fn frontier_chain_prefix_in_bfs_order() {
    let nodes: Vec<GraphNode> = (0..6).map(|i| node(&format!("c{}", i))).collect();
    let edges: Vec<GraphEdge> = (0..5)
        .map(|i| edge(&format!("f{}", i), &format!("c{}", i), &format!("c{}", i + 1)))
        .collect();
    let result = frontier_sample(&nodes, &edges, &vec!["c0".to_string()], 4);
    let ids: Vec<String> = result.sampled_nodes.iter().map(|n| n.id.clone()).collect();
    assert_eq!(ids, vec!["c0", "c1", "c2", "c3"]);
    assert_eq!(sorted_edge_ids(&result.sampled_edges), vec!["f0", "f1", "f2"]);
}

#[test]
fn frontier_two_chains_two_ply() {
    let (nodes, edges) = create_test_graph();
    let result = frontier_sample(&nodes, &edges, &vec!["n0".to_string()], 5);
    assert_eq!(sorted_ids(&result.sampled_nodes), vec!["n0", "n1", "n2", "n5", "n6"]);
    // e2 discovers n3 while the budget still has room, so it is recorded
    // even though n3 is never visited.
    assert_eq!(sorted_edge_ids(&result.sampled_edges), vec!["e0", "e1", "e2", "e4", "e5"]);
}

#[test]
fn frontier_dangling_seed_is_dropped_from_nodes() {
    let (nodes, edges) = create_test_graph();
    let result = frontier_sample(&nodes, &edges, &vec!["ghostly".to_string()], 3);
    assert!(result.sampled_nodes.is_empty());
    assert!(result.sampled_edges.is_empty());
}

#[test]
fn protocol_version_result_holds_its_fields() {
    let r = ProtocolVersionResult {
        version: "1.0.0".to_string(),
        features: vec!["sampling".to_string(), "community_detection".to_string()],
    };
    assert_eq!(r.version, "1.0.0");
    assert_eq!(r.features.len(), 2);
}
