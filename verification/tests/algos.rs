use graphkit::graph::Graph;
use graphkit::traverse::bfs_edges;
use graphkit::traverse::edge_bfs;
use graphkit::traverse::single_shortest_path;

#[test]
fn test_bfs() {
    let mut g = Graph::new();
    g.add_edge_raw(1, 2, 0).expect("Failed to add edge 1 -> 2");
    g.add_edge_raw(1, 3, 0).expect("Failed to add edge 1 -> 3");
    g.add_edge_raw(2, 4, 0).expect("Failed to add edge 2 -> 4");
    g.add_edge_raw(2, 5, 0).expect("Failed to add edge 2 -> 5");
    g.add_edge_raw(3, 6, 0).expect("Failed to add edge 3 -> 6");
    g.add_edge_raw(3, 7, 0).expect("Failed to add edge 3 -> 7");

    let solutions = vec![
        vec![(1, 2), (1, 3), (2, 4), (2, 5), (3, 6), (3, 7)],
        vec![(1, 2), (1, 3), (2, 4), (2, 5), (3, 7), (3, 6)],
        vec![(1, 2), (1, 3), (2, 5), (2, 4), (3, 6), (3, 7)],
        vec![(1, 2), (1, 3), (2, 5), (2, 4), (3, 7), (3, 6)],
        vec![(1, 3), (1, 2), (3, 6), (3, 7), (2, 4), (2, 5)],
        vec![(1, 3), (1, 2), (3, 6), (3, 7), (2, 5), (2, 4)],
        vec![(1, 3), (1, 2), (3, 7), (3, 6), (2, 4), (2, 5)],
        vec![(1, 3), (1, 2), (3, 7), (3, 6), (2, 5), (2, 4)],
    ];
    let r = bfs_edges(&g, 1).unwrap();
    assert!(solutions.contains(&r), "{:?} not found in {:?}", r, solutions);
}

#[test]
fn test_edge_bfs() {
    let mut g = Graph::new();
    g.add_edge_raw(1, 2, 0).expect("Failed to add edge 1 -> 2");
    g.add_edge_raw(1, 3, 0).expect("Failed to add edge 1 -> 3");
    g.add_edge_raw(2, 4, 0).expect("Failed to add edge 2 -> 4");
    g.add_edge_raw(2, 5, 0).expect("Failed to add edge 2 -> 5");
    g.add_edge_raw(3, 6, 0).expect("Failed to add edge 3 -> 6");
    g.add_edge_raw(3, 7, 0).expect("Failed to add edge 3 -> 7");

    let solutions = vec![
        vec![(1, 2), (1, 3), (2, 4), (2, 5), (3, 6), (3, 7)],
        vec![(1, 2), (1, 3), (2, 4), (2, 5), (3, 7), (3, 6)],
        vec![(1, 2), (1, 3), (2, 5), (2, 4), (3, 6), (3, 7)],
        vec![(1, 2), (1, 3), (2, 5), (2, 4), (3, 7), (3, 6)],
        vec![(1, 3), (1, 2), (3, 6), (3, 7), (2, 4), (2, 5)],
        vec![(1, 3), (1, 2), (3, 6), (3, 7), (2, 5), (2, 4)],
        vec![(1, 3), (1, 2), (3, 7), (3, 6), (2, 4), (2, 5)],
        vec![(1, 3), (1, 2), (3, 7), (3, 6), (2, 5), (2, 4)],
    ];
    let r = edge_bfs(&g, 1).unwrap();
    assert!(solutions.contains(&r), "{:?} not found in {:?}", r, solutions);
}

#[test]
fn test_edge_bfs_all_edges() {
    let mut g = Graph::new();
    g.add_edge_raw(1, 2, 0).expect("Failed to add edge 1 -> 2");
    g.add_edge_raw(2, 3, 0).expect("Failed to add edge 2 -> 3");
    g.add_edge_raw(3, 2, 0).expect("Failed to add edge 3 -> 2");

    let solutions = vec![vec![(1, 2), (2, 3), (3, 2)]];
    let r = edge_bfs(&g, 1).unwrap();
    assert!(solutions.contains(&r), "{:?} not found in {:?}", r, solutions);
}

#[test]
fn test_single_shortest_path() {
    let mut g = Graph::new();
    g.add_edge_raw(1, 2, 0).expect("Failed to add edge 1 -> 2");
    g.add_edge_raw(1, 3, 0).expect("Failed to add edge 1 -> 3");
    g.add_edge_raw(2, 4, 0).expect("Failed to add edge 2 -> 4");
    g.add_edge_raw(2, 5, 0).expect("Failed to add edge 2 -> 5");
    g.add_edge_raw(3, 6, 0).expect("Failed to add edge 3 -> 6");
    g.add_edge_raw(3, 7, 0).expect("Failed to add edge 3 -> 7");

    let solution = vec![
        (1, vec![1]),
        (2, vec![1, 2]),
        (3, vec![1, 3]),
        (4, vec![1, 2, 4]),
        (5, vec![1, 2, 5]),
        (6, vec![1, 3, 6]),
        (7, vec![1, 3, 7]),
    ];
    let r = single_shortest_path(&g, 1).unwrap();
    assert_eq!(r.len(), solution.len());
    for (v, path) in solution {
        assert_eq!(r.get(v), Some(&path), "path to {} differs", v);
    }
}

#[test]
fn test_bfs_unreachable_vertex_is_absent() {
    let mut g = Graph::new();
    g.add_edge_raw(1, 2, 0).expect("Failed to add edge 1 -> 2");
    g.add_vertex_raw(9).expect("Failed to add vertex 9");

    let r = bfs_edges(&g, 1).unwrap();
    assert_eq!(r, vec![(1, 2)]);
    let sp = single_shortest_path(&g, 1).unwrap();
    assert_eq!(sp.len(), 2);
    assert!(sp.get(9).is_none());
    assert!(bfs_edges(&g, 42).is_err());
}
