use graphkit::error::GraphError;
use graphkit::graph::Graph;
use graphkit::store::EdgeSet;
use graphkit::store::VertexSet;
use graphkit::ugraph::UGraph;

#[test]
fn test_sources_and_sinks() {
    let mut g = Graph::new();
    g.add_edge_raw(2, 1, 0).expect("Failed to add edge 2 -> 1");
    g.add_edge_raw(3, 1, 0).expect("Failed to add edge 3 -> 1");
    g.add_edge_raw(1, 0, 0).expect("Failed to add edge 1 -> 0");
    g.add_edge_raw(6, 5, 0).expect("Failed to add edge 6 -> 5");
    g.add_edge_raw(7, 5, 0).expect("Failed to add edge 7 -> 5");
    g.add_edge_raw(5, 4, 0).expect("Failed to add edge 5 -> 4");

    let sources = g.sources();
    assert_eq!(sources.len(), 4);
    for v in [3, 2, 7, 6] {
        assert!(sources.contains(v), "missing source {}", v);
    }
    let sinks = g.sinks();
    assert_eq!(sinks.len(), 2);
    for v in [0, 4] {
        assert!(sinks.contains(v), "missing sink {}", v);
    }

    assert_eq!(g.vertices().len(), 8);
    for v in 0..8 {
        assert!(g.has_vertex_raw(&v));
    }
    let expected_is_source = [false, false, true, true, false, false, true, true];
    let expected_is_sink = [true, false, false, false, true, false, false, false];
    for v in 0..8usize {
        assert_eq!(
            g.is_source(&v).expect("Failed to call is_source"),
            expected_is_source[v],
            "is_source {}",
            v
        );
        assert_eq!(
            g.is_sink(&v).expect("Failed to call is_sink"),
            expected_is_sink[v],
            "is_sink {}",
            v
        );
    }
}

#[test]
fn test_parent() {
    let mut g = Graph::new();
    g.add_edge_raw(2, 1, 0).expect("Failed to add edge 2 -> 1");
    g.add_edge_raw(3, 1, 0).expect("Failed to add edge 3 -> 1");
    g.add_edge_raw(4, 2, 0).expect("Failed to add edge 4 -> 2");
    g.add_edge_raw(4, 3, 0).expect("Failed to add edge 4 -> 3");

    assert!(matches!(g.parent(&0), Err(GraphError::VertexError(_))));
    assert_eq!(g.parent(&1).expect("maybe parent for vertex 1"), None);
    assert_eq!(g.parent(&2).expect("maybe parent for vertex 2"), Some(1));
    assert_eq!(g.parent(&3).expect("maybe parent for vertex 3"), Some(1));
    assert!(matches!(g.parent(&4), Err(GraphError::VertexError(_))));
}

#[test]
fn test_remove_u() {
    let mut g = UGraph::new();
    g.add_edge_raw(2, 1, 0).expect("Failed to add edge 2 -- 1");
    g.add_edge_raw(3, 1, 0).expect("Failed to add edge 3 -- 1");
    g.add_edge_raw(1, 0, 0).expect("Failed to add edge 1 -- 0");

    assert_eq!(g.edges().len(), 3);
    assert_eq!(g.edges().get(1, 2), Some(0));
    assert_eq!(g.edges().get(1, 3), Some(0));
    assert_eq!(g.edges().get(0, 1), Some(0));

    let r = g.remove_vertex_raw(&1);
    assert!(r.is_ok(), "remove_vertex_raw failed: {:?}", r);
    assert!(g.edges().is_empty());
    assert_eq!(g.vertices().len(), 3);
    for v in [0, 2, 3] {
        assert!(g.vertices().contains(v));
    }
    assert!(matches!(g.neighbours(&1), Err(GraphError::VertexError(_))));
}

#[test]
fn test_undirected_edges_u() {
    let mut g = UGraph::new();
    g.add_edge_raw(1, 2, 0).expect("Failed to add edge 1 -- 2");
    g.add_edge_raw(2, 1, 0).expect("Failed to add edge 2 -- 1");
    assert_eq!(g.edges().len(), 1);
    assert_eq!(g.edges().get(1, 2), Some(0));
}

#[test]
fn test_endpoints() {
    let mut g = Graph::new();
    g.add_edge_raw(2, 1, 0).expect("Failed to add edge 2 -> 1");
    g.add_edge_raw(3, 2, 0).expect("Failed to add edge 3 -> 2");
    g.add_edge_raw(4, 2, 0).expect("Failed to add edge 4 -> 2");

    assert_eq!(g.vertices().len(), 4);
    let ep = g.endpoints();
    assert_eq!(ep.len(), 4);
    for v in [1, 2, 3, 4] {
        assert!(ep.contains(v), "endpoint {} missing", v);
    }

    let mut rg = g.clone();
    rg.remove_vertex_raw(&2).expect("Failed to remove vertex 2");
    assert!(rg.endpoints().is_empty(), "endpoints should be empty");
}

#[test]
fn test_retain() {
    let mut g = Graph::new();
    g.add_edge_raw(2, 1, 0).expect("Failed to add edge 2 -> 1");
    g.add_edge_raw(3, 2, 0).expect("Failed to add edge 3 -> 2");
    g.add_edge_raw(4, 2, 0).expect("Failed to add edge 4 -> 2");

    assert_eq!(g.vertices().len(), 4);

    let mut retain = VertexSet::new();
    for v in [1, 3, 4] {
        retain.insert(v);
    }
    let mut rg = g.clone();
    rg.retain(&retain).expect("Failed retain");

    let sources = rg.sources();
    let sinks = rg.sinks();
    assert_eq!(sources.len(), 3);
    assert_eq!(sinks.len(), 3);
    for v in [1, 3, 4] {
        assert!(sources.contains(v));
        assert!(sinks.contains(v));
    }
    assert!(rg.edges().is_empty());
}

#[test]
fn test_retain_edges() {
    let mut g = Graph::new();
    g.add_edge_raw(1, 2, 0).expect("Failed to add edge 1 -> 2");
    g.add_edge_raw(2, 1, 0).expect("Failed to add edge 2 -> 1");
    g.add_edge_raw(2, 3, 0).expect("Failed to add edge 2 -> 3");
    g.add_edge_raw(3, 2, 0).expect("Failed to add edge 3 -> 2");
    g.add_edge_raw(4, 2, 0).expect("Failed to add edge 4 -> 2");

    assert_eq!(g.vertices().len(), 4);

    let mut retain = EdgeSet::new();
    retain.insert(3, 2);
    retain.insert(4, 2);
    let mut rg = g.clone();
    rg.retain_edges(&retain).expect("Failed retain_edges");

    let sources = rg.sources();
    assert_eq!(sources.len(), 3);
    for v in [1, 3, 4] {
        assert!(sources.contains(v), "sources not equal");
    }
    let sinks = rg.sinks();
    assert_eq!(sinks.len(), 2);
    for v in [1, 2] {
        assert!(sinks.contains(v), "sinks not equal");
    }
    assert_eq!(rg.edges().len(), 2);
    assert_eq!(rg.edges().get(3, 2), Some(0));
    assert_eq!(rg.edges().get(4, 2), Some(0));
}
