use semverx_registry::fault::FaultState;
use semverx_registry::graph::DependencyGraph;
use semverx_registry::resolve::{
    astar_resolve, find_hamiltonian_path, is_eulerian, resolve_hybrid, DagResolver,
    ResolutionStrategy, ResolverError,
};

#[test]
fn test_eulerian_detection() {
    let mut graph = DependencyGraph::new();

    // Create simple cycle: A -> B -> C -> A
    let a = graph.add_node("A".to_string());
    let b = graph.add_node("B".to_string());
    let c = graph.add_node("C".to_string());

    let _ = graph.add_edge(&a, &b);
    let _ = graph.add_edge(&b, &c);
    let _ = graph.add_edge(&c, &a);

    assert!(is_eulerian(&graph), "Simple cycle should be Eulerian");
}

#[test]
fn test_hamiltonian_small_graph() {
    let mut graph = DependencyGraph::new();

    // Create path: A -> B -> C
    let a = graph.add_node("A".to_string());
    let b = graph.add_node("B".to_string());
    let c = graph.add_node("C".to_string());

    let _ = graph.add_edge(&a, &b);
    let _ = graph.add_edge(&b, &c);

    let path = find_hamiltonian_path(&graph, 1000);

    assert!(path.is_some(), "Should find Hamiltonian path");
    assert_eq!(path.unwrap().len(), 3, "Path should include all 3 nodes");
}

#[test]
fn test_astar_optimal_path() {
    let mut graph = DependencyGraph::new();

    // Create diamond graph to test optimality
    let a = graph.add_node("1.0.0".to_string());
    let b = graph.add_node("1.1.0".to_string());
    let c = graph.add_node("1.2.0".to_string());
    let d = graph.add_node("2.0.0".to_string());

    let _ = graph.add_edge(&a, &b);
    let _ = graph.add_edge(&a, &c);
    let _ = graph.add_edge(&b, &d);
    let _ = graph.add_edge(&c, &d);

    let result = astar_resolve(&graph, a.clone(), d.clone());
    assert!(result.is_ok(), "Should find path from A to D");

    let path = result.unwrap();
    assert!(path.nodes.len() >= 2, "Path should have at least start and goal");
}

#[test]
fn test_hybrid_strategy() {
    let mut graph = DependencyGraph::new();

    let a = graph.add_node("1.0.0".to_string());
    let b = graph.add_node("1.1.0".to_string());
    let _ = graph.add_edge(&a, &b);

    let result = resolve_hybrid(&graph, a.clone(), b.clone());
    assert!(result.is_ok(), "Hybrid should resolve simple path");
}

#[test]
fn test_eulerian_classification_cycle() {
    let resolver = DagResolver::new();
    let mut graph = DependencyGraph::new();
    let a = graph.add_node("A".to_string());
    let b = graph.add_node("B".to_string());
    let c = graph.add_node("C".to_string());
    let _ = graph.add_edge(&a, &b);
    let _ = graph.add_edge(&b, &c);
    let _ = graph.add_edge(&c, &a);
    let r = resolver.eulerian_resolve("A", &graph);
    assert_eq!(r.fault_state, FaultState::Clean);
    assert!(r.error_message.is_none());
    assert_eq!(r.path, vec!["A".to_string()]);
}

#[test]
fn test_eulerian_classification_semi() {
    let resolver = DagResolver::new();
    let mut graph = DependencyGraph::new();
    let a = graph.add_node("A".to_string());
    let b = graph.add_node("B".to_string());
    let c = graph.add_node("C".to_string());
    // cycle plus one extra edge unbalances exactly two nodes by one
    let _ = graph.add_edge(&a, &b);
    let _ = graph.add_edge(&b, &c);
    let _ = graph.add_edge(&c, &a);
    let _ = graph.add_edge(&a, &c);
    let r = resolver.eulerian_resolve("A", &graph);
    assert_eq!(r.fault_state, FaultState::MediumWarning);
    assert_eq!(r.error_message, Some("Semi-Eulerian path detected".to_string()));
}

#[test]
fn test_eulerian_classification_disconnected() {
    let resolver = DagResolver::new();
    let mut graph = DependencyGraph::new();
    let _iso = graph.add_node("A".to_string());
    let b = graph.add_node("B".to_string());
    let c = graph.add_node("C".to_string());
    let d = graph.add_node("D".to_string());
    // B, C, D form a cycle while A has no edges at all
    let _ = graph.add_edge(&b, &c);
    let _ = graph.add_edge(&c, &d);
    let _ = graph.add_edge(&d, &b);
    let r = resolver.eulerian_resolve("A", &graph);
    assert_eq!(r.fault_state, FaultState::SystemPanic);
    assert_eq!(r.error_message, Some("Disconnected dependency graph".to_string()));
    assert!(r.path.is_empty());
}

#[test]
fn test_hamiltonian_empty_graph() {
    let graph = DependencyGraph::new();
    assert_eq!(find_hamiltonian_path(&graph, 1000), Some(vec![]));
}

#[test]
fn test_hamiltonian_unreachable_node() {
    let mut graph = DependencyGraph::new();
    let a = graph.add_node("A".to_string());
    let b = graph.add_node("B".to_string());
    let _c = graph.add_node("C".to_string());
    let _ = graph.add_edge(&a, &b);
    // C is isolated, so no path can visit every node
    assert!(find_hamiltonian_path(&graph, 1000).is_none());
}

#[test]
fn test_hamiltonian_path_order_follows_edges() {
    let mut graph = DependencyGraph::new();
    let a = graph.add_node("A".to_string());
    let b = graph.add_node("B".to_string());
    let c = graph.add_node("C".to_string());
    let _ = graph.add_edge(&a, &b);
    let _ = graph.add_edge(&b, &c);
    let path = find_hamiltonian_path(&graph, 1000).expect("path exists");
    assert_eq!(path, vec!["A".to_string(), "B".to_string(), "C".to_string()]);
}

#[test]
fn test_astar_diamond_cost_is_two() {
    let mut graph = DependencyGraph::new();
    let a = graph.add_node("A".to_string());
    let b = graph.add_node("B".to_string());
    let c = graph.add_node("C".to_string());
    let d = graph.add_node("D".to_string());
    let _ = graph.add_edge(&a, &b);
    let _ = graph.add_edge(&a, &c);
    let _ = graph.add_edge(&b, &d);
    let _ = graph.add_edge(&c, &d);
    let path = astar_resolve(&graph, a.clone(), d.clone()).expect("diamond has a path");
    assert_eq!(path.cost, 2, "either branch of the diamond costs two hops");
    assert_eq!(path.nodes.len(), 3, "the path holds exactly three nodes");
    assert_eq!(path.nodes[0], "A".to_string());
    assert_eq!(path.nodes[2], "D".to_string());
}

#[test]
fn test_astar_missing_node() {
    let mut graph = DependencyGraph::new();
    let a = graph.add_node("A".to_string());
    match astar_resolve(&graph, a.clone(), "Z".to_string()) {
        Err(ResolverError::NodeNotFound(m)) => assert_eq!(m, "Z".to_string()),
        _ => panic!("expected NodeNotFound"),
    }
}

#[test]
fn test_astar_no_path() {
    let mut graph = DependencyGraph::new();
    let a = graph.add_node("A".to_string());
    let b = graph.add_node("B".to_string());
    let _ = graph.add_edge(&b, &a);
    match astar_resolve(&graph, a.clone(), b.clone()) {
        Err(ResolverError::NoPathFound { start, goal }) => {
            assert_eq!(start, "A".to_string());
            assert_eq!(goal, "B".to_string());
        },
        _ => panic!("expected NoPathFound"),
    }
}

#[test]
fn test_hybrid_falls_back_to_hamiltonian() {
    let mut graph = DependencyGraph::new();
    let a = graph.add_node("A".to_string());
    let b = graph.add_node("B".to_string());
    // no directed walk A -> B, but the Hamiltonian path B -> A holds both
    let _ = graph.add_edge(&b, &a);
    let path = resolve_hybrid(&graph, a.clone(), b.clone()).expect("fallback succeeds");
    assert_eq!(path.nodes.len(), 2);
    assert_eq!(path.cost, path.nodes.len() as u64 - 1);
}

#[test]
fn test_hybrid_exhausted() {
    let mut graph = DependencyGraph::new();
    let a = graph.add_node("A".to_string());
    let b = graph.add_node("B".to_string());
    match resolve_hybrid(&graph, a.clone(), b.clone()) {
        Err(ResolverError::ResolutionFailed { strategy, reason }) => {
            assert!(matches!(strategy, ResolutionStrategy::Hybrid));
            assert_eq!(reason, "All strategies exhausted".to_string());
        },
        _ => panic!("expected ResolutionFailed"),
    }
}

#[test]
fn test_graph_queries() {
    let mut graph = DependencyGraph::new();
    let a = graph.add_node("A".to_string());
    let b = graph.add_node("B".to_string());
    let c = graph.add_node("C".to_string());
    let _ = graph.add_edge(&a, &b);
    let _ = graph.add_edge(&a, &c);
    let _ = graph.add_edge(&b, &a);
    // a duplicate edge is deduplicated
    let _ = graph.add_edge(&a, &b);
    assert_eq!(graph.node_count(), 3);
    assert_eq!(graph.edge_count(), 3);
    assert_eq!(graph.degree("A"), Ok(3));
    assert_eq!(graph.degree("C"), Ok(1));
    assert!(graph.degree("Z").is_err());
    let mut ns = graph.neighbors("A").unwrap();
    ns.sort();
    assert_eq!(ns, vec!["B".to_string(), "C".to_string()]);
    // adding an edge to an unknown node fails and changes nothing
    assert!(graph.add_edge(&a, &"Z".to_string()).is_err());
    assert_eq!(graph.edge_count(), 3);
    // re-adding an existing identifier does not grow the graph
    let _ = graph.add_node("A".to_string());
    assert_eq!(graph.node_count(), 3);
}

#[test]
fn test_hamiltonian_resolve_reports_high_panic() {
    let resolver = DagResolver::new();
    let mut graph = DependencyGraph::new();
    let a = graph.add_node("A".to_string());
    let b = graph.add_node("B".to_string());
    let _c = graph.add_node("C".to_string());
    let _ = graph.add_edge(&a, &b);
    let r = resolver.hamiltonian_resolve("A", &graph);
    assert_eq!(r.fault_state, FaultState::HighPanic);
    assert_eq!(r.error_message, Some("No Hamiltonian path found".to_string()));
}
