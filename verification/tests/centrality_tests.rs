use flight_graph::centrality::closeness_totals;
use flight_graph::centrality::degree_centrality;
use flight_graph::graph::Graph;

fn closeness_score(reached: usize, total_distance: u128) -> f64 {
    if reached > 1 {
        (reached - 1) as f64 / total_distance as f64
    } else {
        0.0
    }
}

fn score_of(totals: &Vec<(String, usize, u128)>, name: &str) -> f64 {
    for (n, c, t) in totals {
        if n == name {
            return closeness_score(*c, *t);
        }
    }
    panic!("name not found");
}

fn degree_of(degrees: &Vec<(String, usize)>, name: &str) -> usize {
    for (n, d) in degrees {
        if n == name {
            return *d;
        }
    }
    panic!("name not found");
}

#[test]
fn test_closeness_on_small_graph() {
    let mut g = Graph::new();
    g.add_edge("A", "B");
    g.add_edge("B", "C");
    let result = closeness_totals(&g);
    assert!(result.iter().any(|(name, _, _)| name == "A"));
}

#[test]
fn test_path_graph_scores() {
    let mut g = Graph::new();
    g.add_edge("A", "B");
    g.add_edge("B", "C");
    assert_eq!(g.node_count(), 3);
    assert_eq!(g.edge_count(), 2);

    let degrees = degree_centrality(&g);
    assert_eq!(degree_of(&degrees, "A"), 1);
    assert_eq!(degree_of(&degrees, "B"), 2);
    assert_eq!(degree_of(&degrees, "C"), 1);

    let totals = closeness_totals(&g);
    // from B both others lie at distance 1: score 2/2 = 1.0
    assert_eq!(score_of(&totals, "B"), 1.0);
    // from A the distances are 1 and 2: score 2/3
    assert_eq!(score_of(&totals, "A"), 2.0 / 3.0);
    assert_eq!(score_of(&totals, "A"), score_of(&totals, "C"));
    assert!(score_of(&totals, "B") > score_of(&totals, "A"));
}

#[test]
fn test_duplicate_edge_degrees() {
    let mut g = Graph::new();
    g.add_edge("A", "B");
    g.add_edge("A", "B");
    assert_eq!(g.edge_count(), 2);
    let degrees = degree_centrality(&g);
    assert_eq!(degree_of(&degrees, "A"), 2);
    assert_eq!(degree_of(&degrees, "B"), 2);
}

#[test]
fn test_self_loop_scores_zero() {
    let mut g = Graph::new();
    g.add_edge("A", "A");
    let totals = closeness_totals(&g);
    assert_eq!(totals.len(), 1);
    let (ref name, reached, total_distance) = totals[0];
    assert_eq!(name, "A");
    // the traversal reaches only the node itself
    assert_eq!(reached, 1);
    assert_eq!(total_distance, 0);
    assert_eq!(score_of(&totals, "A"), 0.0);
    // but the self-loop contributes two entries to its own list
    let degrees = degree_centrality(&g);
    assert_eq!(degree_of(&degrees, "A"), 2);
}

#[test]
fn test_connected_scores_in_unit_interval() {
    let mut g = Graph::new();
    g.add_edge("HUB", "A");
    g.add_edge("HUB", "B");
    g.add_edge("HUB", "C");
    g.add_edge("A", "B");
    for (_, c, t) in closeness_totals(&g) {
        let s = closeness_score(c, t);
        assert!(s > 0.0);
        assert!(s <= 1.0);
        assert!(!s.is_nan());
    }
}

#[test]
fn test_degree_matches_neighbor_list_length() {
    let mut g = Graph::new();
    g.add_edge("A", "B");
    g.add_edge("B", "C");
    g.add_edge("B", "B");
    let degrees = degree_centrality(&g);
    for (name, i) in g.nodes() {
        assert_eq!(degree_of(&degrees, &name), g.neighbors(i).len());
    }
}

#[test]
fn test_centrality_deterministic() {
    let mut g = Graph::new();
    g.add_edge("A", "B");
    g.add_edge("B", "C");
    g.add_edge("C", "A");
    g.add_edge("C", "D");
    assert_eq!(closeness_totals(&g), closeness_totals(&g));
    assert_eq!(degree_centrality(&g), degree_centrality(&g));
}

#[test]
fn test_empty_graph_centrality() {
    let g = Graph::new();
    assert!(closeness_totals(&g).is_empty());
    assert!(degree_centrality(&g).is_empty());
}

#[test]
fn test_disconnected_components() {
    let mut g = Graph::new();
    g.add_edge("A", "B");
    g.add_edge("C", "D");
    let totals = closeness_totals(&g);
    // each node reaches only its own two-node component, at distance one
    for (_, c, t) in &totals {
        assert_eq!(*c, 2);
        assert_eq!(*t, 1);
    }
    assert_eq!(score_of(&totals, "A"), 1.0);
    assert_eq!(score_of(&totals, "D"), 1.0);
}
