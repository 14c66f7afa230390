use graphkit::error::GraphError;
use graphkit::graph::Graph;
use graphkit::prng;
use graphkit::ugraph::UGraph;
use graphkit::ugraph_from_graph;

#[test]
fn test_to_undirected() {
    let mut g = Graph::new_with_name("g");
    g.add_edge_raw(1, 2, 1).expect("added edge 1,2 1");

    let gu = ugraph_from_graph(&g).expect("Failed to convert to undirected");

    assert_eq!(gu.name(), String::from("g"));
    assert!(gu.has_edge_raw(&(1, 2)));
    assert!(gu.has_edge_raw(&(2, 1)));
    assert_eq!(gu.edges().get(1, 2), Some(1));
}

#[test]
fn test_to_undirected_conflict() {
    let mut g = Graph::new();
    g.add_edge_raw(1, 2, 1).expect("added edge");
    g.add_edge_raw(2, 1, 3).expect("added edge");
    let r = ugraph_from_graph(&g);
    assert!(matches!(r, Err(GraphError::ConversionError(_))));
}

#[test]
fn test_has_vertex_raw() {
    let mut g = Graph::new();
    let r_before = g.has_vertex_raw(&2);
    g.add_vertex_raw(2).expect("Failed to add vertex");
    let r_after = g.has_vertex_raw(&2);
    assert_eq!(r_before, false, "Should not have vertex yet");
    assert_eq!(r_after, true, "Should have vertex");
}

#[test]
fn test_has_edge_raw() {
    let mut g = Graph::new();
    g.add_edge_raw(1, 2, 0).expect("Failed to add edge 1 -- 2");
    assert!(g.has_edge_raw(&(1, 2)), "has_edge_raw 1 -> 2 failed");
    assert!(!g.has_edge_raw(&(2, 1)), "has_edge_raw 2 -> 1 succeeded");
}

#[test]
fn test_has_edge_raw_u() {
    let mut g = UGraph::new();
    g.add_edge_raw(1, 2, 0).expect("Failed to add edge 1 -- 2");
    assert!(g.has_edge_raw(&(1, 2)), "has_edge_raw 1 -> 2 failed");
    assert!(g.has_edge_raw(&(2, 1)), "has_edge_raw 2 -> 1 failed");
}

#[test]
fn test_remove() {
    let mut g = Graph::new();
    g.add_edge_raw(2, 1, 0).expect("Failed to add edge 2 -> 1");
    g.add_edge_raw(3, 1, 0).expect("Failed to add edge 3 -> 1");
    g.add_edge_raw(1, 0, 0).expect("Failed to add edge 1 -> 0");
    let r = g.remove_vertex_raw(&1);
    assert!(r.is_ok(), "remove_vertex_raw failed");
    assert!(g.edges().is_empty());
    assert_eq!(g.vertices().len(), 3);
    for v in [0, 2, 3] {
        assert!(g.has_vertex_raw(&v));
    }
    assert!(matches!(g.inbound(&1), Err(GraphError::VertexError(_))));
    assert!(matches!(g.outbound(&1), Err(GraphError::VertexError(_))));
}

#[test]
fn test_range() {
    assert_eq!(prng::wyrng_range(0, 2, &mut 42u64), 0u64);
    assert_eq!(prng::wyrng_range(0, 2, &mut 44u64), 1u64);
    assert_eq!(prng::wyrng_range(1, 3, &mut 42u64), 1u64);
    assert_eq!(prng::wyrng_range(1, 3, &mut 44u64), 2u64);
}

#[test]
fn test_shuffle() {
    let mut seed = 42u64;
    let mut v: Vec<usize> = (0..100).collect();
    prng::shuffle(&mut v, &mut seed).expect("Failed to shuffle");
    let mut sorted = v.clone();
    sorted.sort();
    let expect: Vec<usize> = (0..100).collect();
    assert_eq!(sorted, expect, "shuffle must be a permutation");
}

#[test]
fn test_shuffle_deterministic_in_seed() {
    let mut seed_a = 7u64;
    let mut seed_b = 7u64;
    let mut va: Vec<usize> = (0..50).collect();
    let mut vb: Vec<usize> = (0..50).collect();
    prng::shuffle(&mut va, &mut seed_a).expect("Failed to shuffle");
    prng::shuffle(&mut vb, &mut seed_b).expect("Failed to shuffle");
    assert_eq!(va, vb, "same seed must give the same arrangement");
    assert_eq!(seed_a, seed_b, "same seed must leave the same seed");
}
