use fixed_length_path::backtrack::pruned_backtrack;
use fixed_length_path::deviation::deviation_search;
use fixed_length_path::graph::{Graph, DENSITY_SCALE};
use fixed_length_path::paths::verify_path;
use rand::rngs::StdRng;
use rand::SeedableRng;

fn complete_graph(n: usize, seed: u64) -> Graph {
    let mut g = Graph::new(n);
    let mut rng = StdRng::seed_from_u64(seed);
    g.fill_undirected(DENSITY_SCALE, &mut rng);
    g
}

#[test]
fn single_vertex_path_is_found() {
    // A length-1 path from a vertex to itself exists even with no edges.
    let empty = Graph::new(3);
    assert_eq!(deviation_search(&empty, 2, 2, 1), Some(vec![2]));
    assert_eq!(pruned_backtrack(&empty, 2, 2, 1), Some(vec![2]));
    let full = complete_graph(3, 20);
    assert_eq!(deviation_search(&full, 0, 0, 1), Some(vec![0]));
    assert_eq!(pruned_backtrack(&full, 0, 0, 1), Some(vec![0]));
}

#[test]
fn single_vertex_path_between_distinct_endpoints_is_absent() {
    let full = complete_graph(3, 21);
    assert_eq!(deviation_search(&full, 0, 1, 1), None);
    assert_eq!(pruned_backtrack(&full, 0, 1, 1), None);
}

#[test]
fn length_beyond_vertex_count_is_absent() {
    let full = complete_graph(4, 22);
    assert_eq!(deviation_search(&full, 0, 1, 5), None);
    assert_eq!(pruned_backtrack(&full, 0, 1, 5), None);
}

#[test]
fn no_path_in_an_edgeless_graph() {
    let empty = Graph::new(4);
    assert_eq!(deviation_search(&empty, 0, 1, 2), None);
    assert_eq!(pruned_backtrack(&empty, 0, 1, 2), None);
}

#[test]
fn complete_graph_has_paths_of_every_length() {
    let g = complete_graph(5, 23);
    let p1 = deviation_search(&g, 0, 0, 1).expect("single vertex");
    assert!(verify_path(&g, &p1, 0, 0, 1));
    let q1 = pruned_backtrack(&g, 0, 0, 1).expect("single vertex");
    assert!(verify_path(&g, &q1, 0, 0, 1));
    for length in 2..=5 {
        let p = deviation_search(&g, 0, 1, length).expect("deviation search");
        assert!(verify_path(&g, &p, 0, 1, length));
        let q = pruned_backtrack(&g, 0, 1, length).expect("pruned backtracking");
        assert!(verify_path(&g, &q, 0, 1, length));
    }
}

#[test]
fn successes_verify_on_random_graphs() {
    for seed in 0..4u64 {
        let mut g = Graph::new(8);
        let mut rng = StdRng::seed_from_u64(seed);
        g.fill_undirected(400_000, &mut rng);
        for length in 1..=8 {
            let deviation = deviation_search(&g, 0, 1, length);
            let backtrack = pruned_backtrack(&g, 0, 1, length);
            if let Some(p) = &deviation {
                assert!(verify_path(&g, p, 0, 1, length));
            }
            if let Some(p) = &backtrack {
                assert!(verify_path(&g, p, 0, 1, length));
            }
            // divergence is one-sided: a deviation-search success proves a
            // path exists, and the complete backtracking search must find one
            if deviation.is_some() {
                assert!(backtrack.is_some());
            }
        }
    }
}

#[test]
fn backtracking_returns_the_lexicographically_least_path() {
    // On the complete graph with four vertices the valid three-vertex paths
    // from 0 to 1 are [0,2,1] and [0,3,1]; backtracking must pick the least.
    let g = complete_graph(4, 26);
    assert_eq!(pruned_backtrack(&g, 0, 1, 3), Some(vec![0, 2, 1]));
    assert_eq!(pruned_backtrack(&g, 0, 1, 4), Some(vec![0, 2, 3, 1]));
}

#[test]
fn repeated_calls_return_equal_results() {
    let mut g = Graph::new(9);
    let mut rng = StdRng::seed_from_u64(24);
    g.fill_undirected(300_000, &mut rng);
    for length in 1..=6 {
        assert_eq!(
            deviation_search(&g, 0, 1, length),
            deviation_search(&g, 0, 1, length)
        );
        assert_eq!(
            pruned_backtrack(&g, 0, 1, length),
            pruned_backtrack(&g, 0, 1, length)
        );
    }
}

#[test]
fn strategies_may_diverge_under_the_work_cap() {
    // On a dense graph a long path hides behind thousands of shorter
    // candidates: the deviation search runs into its work cap while the
    // backtracking search walks straight to a Hamiltonian path.
    let g = complete_graph(9, 25);
    let found = pruned_backtrack(&g, 0, 1, 9).expect("backtracking");
    assert!(verify_path(&g, &found, 0, 1, 9));
    assert_eq!(deviation_search(&g, 0, 1, 9), None);
}
