use hgraph::Hypergraph;

#[test]
fn test_add_then_check_edge() {
    let mut hg = Hypergraph::new(false);
    assert!(hg.add_edge(&vec![1, 2, 3]));
    assert!(hg.check_edge(&vec![1, 2, 3]));
    assert!(hg.remove_edge(&vec![1, 2, 3]));
    assert!(!hg.check_edge(&vec![1, 2, 3]));
    // the fingerprint is order-sensitive: a permutation is another edge
    hg.add_edge(&vec![1, 2, 3]);
    assert!(!hg.check_edge(&vec![3, 2, 1]));
}

#[test]
fn test_add_edge_idempotent() {
    let mut hg = Hypergraph::new(true);
    assert!(hg.add_edge_weighted(&vec![4, 5], (1.25_f64).to_bits()));
    let n = hg.num_edges();
    assert!(!hg.add_edge_weighted(&vec![4, 5], (2.5_f64).to_bits()));
    assert_eq!(hg.num_edges(), n);
    assert_eq!(hg.get_weight(&vec![4, 5]), Some((2.5_f64).to_bits()));
}

#[test]
fn test_unweighted_coerces_to_zero() {
    let mut hg = Hypergraph::new(false);
    hg.add_edge_weighted(&vec![1, 2], (9.75_f64).to_bits());
    assert_eq!(hg.get_weight(&vec![1, 2]), Some(0));
    assert_eq!(hg.set_weight(&vec![1, 2], (3.5_f64).to_bits()), Ok(0));
    assert_eq!(hg.get_weight(&vec![1, 2]), Some(0));
}

#[test]
fn test_set_weight_missing_edge_fails() {
    let mut hg = Hypergraph::new(true);
    hg.add_edge(&vec![1, 2]);
    assert_eq!(hg.set_weight(&vec![7, 8], (1.0_f64).to_bits()), Err(()));
    assert_eq!(
        hg.set_weight(&vec![1, 2], (6.5_f64).to_bits()),
        Ok((0.0_f64).to_bits())
    );
    assert_eq!(hg.get_weight(&vec![1, 2]), Some((6.5_f64).to_bits()));
}

#[test]
fn test_add_nodes_and_add_node() {
    let mut hg = Hypergraph::new(false);
    assert!(hg.add_node(7));
    assert!(!hg.add_node(7));
    assert!(hg.add_nodes(&vec![1, 2, 3]));
    assert!(!hg.add_nodes(&vec![3, 4]));
    assert_eq!(hg.num_nodes(), 5);
    assert!(hg.check_node(7));
    assert!(!hg.check_node(99));
}

#[test]
fn test_add_edges_and_remove_edges() {
    let mut hg = Hypergraph::new(false);
    assert!(hg.add_edges(&vec![vec![1, 2], vec![2, 3]]));
    assert!(!hg.add_edges(&vec![vec![1, 2]]));
    assert_eq!(hg.num_edges(), 2);
    assert!(hg.remove_edges(&vec![vec![1, 2], vec![2, 3]]));
    assert!(!hg.remove_edges(&vec![vec![1, 2]]));
    assert_eq!(hg.num_edges(), 0);
    assert_eq!(hg.num_nodes(), 3);
}

#[test]
fn test_remove_node_reinserts_shortened_edges() {
    let mut hg = Hypergraph::new(true);
    hg.add_edge_weighted(&vec![1, 2, 3], (5.5_f64).to_bits());
    hg.add_edge(&vec![3, 4]);
    assert!(hg.remove_node(2));
    assert!(!hg.remove_node(2));
    assert!(!hg.check_node(2));
    assert!(hg.check_edge(&vec![1, 3]));
    assert_eq!(hg.get_weight(&vec![1, 3]), Some((5.5_f64).to_bits()));
    assert!(hg.check_edge(&vec![3, 4]));
    assert_eq!(hg.num_edges(), 2);
}

#[test]
fn test_strong_remove_node_drops_edges() {
    let mut hg = Hypergraph::new(false);
    hg.add_edge(&vec![1, 2, 3]);
    hg.add_edge(&vec![3, 4]);
    hg.add_edge(&vec![4, 5]);
    assert!(hg.strong_remove_node(3));
    assert!(!hg.strong_remove_node(3));
    assert!(!hg.check_edge(&vec![1, 2, 3]));
    assert!(!hg.check_edge(&vec![3, 4]));
    assert!(hg.check_edge(&vec![4, 5]));
    assert_eq!(hg.num_edges(), 1);
    assert!(hg.check_node(1));
    assert!(!hg.check_node(3));
}

#[test]
fn test_batch_node_removals() {
    let mut hg = Hypergraph::new(false);
    hg.add_edge(&vec![1, 2, 3]);
    hg.add_edge(&vec![4, 5]);
    hg.remove_nodes(&vec![1, 4]);
    assert!(!hg.check_node(1));
    assert!(!hg.check_node(4));
    assert!(hg.check_edge(&vec![2, 3]));
    assert!(hg.check_edge(&vec![5]));

    let mut hg2 = Hypergraph::new(false);
    hg2.add_edge(&vec![1, 2, 3]);
    hg2.add_edge(&vec![4, 5]);
    hg2.strong_remove_nodes(&vec![1, 4]);
    assert_eq!(hg2.num_edges(), 0);
}

#[test]
fn test_clear_preserves_weighted_flag() {
    let mut hg = Hypergraph::new(true);
    hg.add_edge_weighted(&vec![1, 2], (3.0_f64).to_bits());
    hg.clear();
    assert_eq!(hg.num_nodes(), 0);
    assert_eq!(hg.num_edges(), 0);
    assert!(hg.is_weighted());
}

#[test]
fn test_dual_index_consistency_after_mutations() {
    // every edge id referenced from an incidence entry resolves to an edge
    // containing that node, and vice versa: observed through the query
    // surface after a mixed mutation sequence
    let mut hg = Hypergraph::new(false);
    hg.add_edge(&vec![1, 2, 3]);
    hg.add_edge(&vec![2, 3, 4]);
    hg.add_edge(&vec![4, 5]);
    hg.remove_edge(&vec![2, 3, 4]);
    hg.remove_node(1);
    hg.add_edge(&vec![5, 6]);
    for n in vec![2, 3, 4, 5, 6] {
        let incident = hg.get_incident_edges(n, None, None).unwrap().unwrap();
        for e in incident.iter() {
            assert!(e.contains(&n));
            assert!(hg.check_edge(e));
        }
        let nbrs = hg.get_neighbors(n, None, None).unwrap().unwrap();
        for b in nbrs.iter() {
            assert!(hg.check_node(*b));
            assert_ne!(*b, n);
        }
    }
}
