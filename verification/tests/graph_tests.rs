use flight_graph::graph::Graph;

fn index_of(g: &Graph, name: &str) -> usize {
    for (n, i) in g.nodes() {
        if n == name {
            return i;
        }
    }
    panic!("name not found");
}

#[test]
fn test_add_edge_and_count() {
    let mut g = Graph::new();
    g.add_edge("A", "B");
    g.add_edge("B", "C");
    assert_eq!(g.node_count(), 3);
    assert_eq!(g.edge_count(), 2);
}

#[test]
fn test_empty_graph() {
    let g = Graph::new();
    assert_eq!(g.node_count(), 0);
    assert_eq!(g.edge_count(), 0);
    assert!(g.nodes().is_empty());
}

#[test]
fn test_duplicate_edge_not_deduplicated() {
    let mut g = Graph::new();
    g.add_edge("A", "B");
    g.add_edge("A", "B");
    assert_eq!(g.edge_count(), 2);
    assert_eq!(g.neighbors(index_of(&g, "A")).len(), 2);
    assert_eq!(g.neighbors(index_of(&g, "B")).len(), 2);
}

#[test]
fn test_self_loop() {
    let mut g = Graph::new();
    g.add_edge("A", "A");
    assert_eq!(g.node_count(), 1);
    assert_eq!(g.edge_count(), 1);
    // a self-loop is appended to both "sides" of the same list
    assert_eq!(g.neighbors(0), &[0, 0]);
}

#[test]
fn test_nodes_enumerates_distinct_entries() {
    let mut g = Graph::new();
    g.add_edge("A", "B");
    g.add_edge("B", "C");
    g.add_edge("A", "C");
    g.add_edge("A", "B");
    let pairs = g.nodes();
    assert_eq!(pairs.len(), g.node_count());
    for i in 0..pairs.len() {
        for j in 0..i {
            assert_ne!(pairs[i].0, pairs[j].0);
            assert_ne!(pairs[i].1, pairs[j].1);
        }
    }
}

#[test]
fn test_edge_count_is_half_of_even_sum() {
    let mut g = Graph::new();
    g.add_edge("A", "B");
    g.add_edge("B", "C");
    g.add_edge("C", "C");
    g.add_edge("B", "C");
    let mut sum = 0usize;
    for (_, i) in g.nodes() {
        sum += g.neighbors(i).len();
    }
    assert_eq!(sum % 2, 0);
    assert_eq!(g.edge_count(), sum / 2);
}
