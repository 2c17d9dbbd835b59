use fixed_length_path::graph::{Graph, DENSITY_SCALE};
use fixed_length_path::paths::verify_path;
use rand::rngs::StdRng;
use rand::SeedableRng;

fn complete_graph(n: usize, seed: u64) -> Graph {
    let mut g = Graph::new(n);
    let mut rng = StdRng::seed_from_u64(seed);
    g.fill_undirected(DENSITY_SCALE, &mut rng);
    g
}

#[test]
fn new_graph_has_no_edges() {
    let g = Graph::new(5);
    assert_eq!(g.vertex_count(), 5);
    for u in 0..5 {
        for v in 0..5 {
            assert!(!g.has_edge(u, v));
        }
    }
}

#[test]
fn zero_vertex_graph_is_empty() {
    let g = Graph::new(0);
    assert_eq!(g.vertex_count(), 0);
    assert!(!g.has_edge(0, 0));
}

#[test]
fn has_edge_is_false_out_of_range() {
    let g = complete_graph(4, 1);
    assert!(!g.has_edge(0, 4));
    assert!(!g.has_edge(4, 0));
    assert!(!g.has_edge(7, 9));
}

#[test]
fn full_density_gives_complete_graph() {
    let g = complete_graph(6, 2);
    for u in 0..6 {
        for v in 0..6 {
            if u != v {
                assert!(g.has_edge(u, v));
            } else {
                assert!(!g.has_edge(u, v));
            }
        }
    }
}

#[test]
fn zero_density_gives_no_edges() {
    let mut g = complete_graph(6, 3);
    let mut rng = StdRng::seed_from_u64(4);
    g.fill_undirected(0, &mut rng);
    for u in 0..6 {
        for v in 0..6 {
            assert!(!g.has_edge(u, v));
        }
    }
}

#[test]
fn fill_is_symmetric_and_loop_free() {
    let mut g = Graph::new(12);
    let mut rng = StdRng::seed_from_u64(5);
    g.fill_undirected(500_000, &mut rng);
    for u in 0..12 {
        assert!(!g.has_edge(u, u));
        for v in 0..12 {
            assert_eq!(g.has_edge(u, v), g.has_edge(v, u));
        }
    }
}

#[test]
fn clear_removes_every_edge() {
    let mut g = complete_graph(7, 6);
    g.clear();
    assert_eq!(g.vertex_count(), 7);
    for u in 0..7 {
        for v in 0..7 {
            assert!(!g.has_edge(u, v));
        }
    }
    // clearing again changes nothing
    g.clear();
    for u in 0..7 {
        for v in 0..7 {
            assert!(!g.has_edge(u, v));
        }
    }
}

#[test]
fn verify_path_accepts_a_real_path() {
    let g = complete_graph(4, 7);
    assert!(verify_path(&g, &vec![0, 2, 1], 0, 1, 3));
    assert!(verify_path(&g, &vec![3], 3, 3, 1));
}

#[test]
fn verify_path_rejects_wrong_length() {
    let g = complete_graph(4, 8);
    assert!(!verify_path(&g, &vec![0, 2, 1], 0, 1, 2));
    assert!(!verify_path(&g, &vec![], 0, 1, 0));
}

#[test]
fn verify_path_rejects_wrong_endpoints() {
    let g = complete_graph(4, 9);
    assert!(!verify_path(&g, &vec![0, 2, 1], 2, 1, 3));
    assert!(!verify_path(&g, &vec![0, 2, 1], 0, 2, 3));
}

#[test]
fn verify_path_rejects_missing_edges() {
    let g = Graph::new(4);
    assert!(!verify_path(&g, &vec![0, 2, 1], 0, 1, 3));
}

#[test]
fn verify_path_rejects_repeated_vertices() {
    let g = complete_graph(4, 10);
    assert!(!verify_path(&g, &vec![0, 2, 0], 0, 0, 3));
}

#[test]
fn verify_path_judges_a_single_vertex_by_endpoints_alone() {
    // The four checks carry no range test of their own: with no edges to
    // inspect, a single-vertex path passes on its endpoints, wherever the
    // entry lies.
    let g = complete_graph(4, 11);
    assert!(verify_path(&g, &vec![9], 9, 9, 1));
    assert!(!verify_path(&g, &vec![9], 9, 9, 2));
    // A longer path with an out-of-range entry fails the edge check.
    assert!(!verify_path(&g, &vec![0, 9], 0, 9, 2));
}
