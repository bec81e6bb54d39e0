use hgraph::Hypergraph;

#[test]
fn test_num_edges_with() {
    let mut hg = Hypergraph::new(false);
    hg.add_edge(&vec![1, 2]);
    hg.add_edge(&vec![1, 2, 3]);
    hg.add_edge(&vec![2, 3, 4]);
    assert_eq!(hg.num_edges_with(None, Some(3), false), Ok(2));
    assert_eq!(hg.num_edges_with(Some(1), None, false), Ok(1));
    assert_eq!(hg.num_edges_with(None, Some(3), true), Ok(3));
    assert!(hg.num_edges_with(Some(1), Some(2), false).is_err());
    assert!(hg.num_edges_with(None, None, false).is_err());
}

#[test]
fn test_weights_sizes_orders() {
    let mut hg = Hypergraph::new(true);
    hg.add_edge_weighted(&vec![1, 2], (1.5_f64).to_bits());
    hg.add_edge_weighted(&vec![1, 2, 3], (2.5_f64).to_bits());
    let weights = hg.get_weights().unwrap();
    assert_eq!(weights.len(), 2);
    assert!(weights.contains(&(1.5_f64).to_bits()));
    assert!(weights.contains(&(2.5_f64).to_bits()));
    let mut sizes = hg.get_sizes().unwrap();
    sizes.sort();
    assert_eq!(sizes, vec![2, 3]);
    let mut orders = hg.get_orders().unwrap();
    orders.sort();
    assert_eq!(orders, vec![1, 2]);
    assert_eq!(hg.max_size(), 3);
    assert_eq!(hg.max_order(), 2);
    let filtered = hg.get_weights_with(None, Some(2), false).unwrap().unwrap();
    assert_eq!(filtered, vec![(1.5_f64).to_bits()]);
    assert!(hg.get_weights_with(None, Some(9), false).unwrap().is_none());
    assert!(hg.get_weights_with(Some(1), Some(2), false).is_err());
}

#[test]
fn test_get_edges_and_filtered() {
    let mut hg = Hypergraph::new(false);
    hg.add_edge(&vec![1, 2]);
    hg.add_edge(&vec![3, 4, 5]);
    let edges = hg.get_edges().unwrap();
    assert_eq!(edges.len(), 2);
    assert!(edges.contains(&vec![1, 2]));
    assert!(edges.contains(&vec![3, 4, 5]));
    let pairs = hg.get_edges_with(None, Some(2), false).unwrap().unwrap();
    assert_eq!(pairs, vec![vec![1, 2]]);
    assert!(hg.get_edges_with(None, Some(7), false).unwrap().is_none());
    assert!(hg.get_edges_with(Some(0), Some(1), false).is_err());
    assert!(hg.get_edges_with(None, None, false).is_err());
}

#[test]
fn test_get_neighbors() {
    let mut hg = Hypergraph::new(false);
    hg.add_edge(&vec![1, 2, 3]);
    hg.add_edge(&vec![3, 4]);
    let mut nbrs = hg.get_neighbors(3, None, None).unwrap().unwrap();
    nbrs.sort();
    assert_eq!(nbrs, vec![1, 2, 4]);
    let mut pairwise = hg.get_neighbors(3, None, Some(2)).unwrap().unwrap();
    pairwise.sort();
    assert_eq!(pairwise, vec![4]);
    assert!(hg.get_neighbors(42, None, None).unwrap().is_none());
    assert!(hg.get_neighbors(3, Some(1), Some(2)).is_err());
}

#[test]
fn test_get_incident_edges() {
    let mut hg = Hypergraph::new(false);
    hg.add_edge(&vec![1, 2, 3]);
    hg.add_edge(&vec![3, 4]);
    hg.add_edge(&vec![1, 2]);
    let incident = hg.get_incident_edges(3, None, None).unwrap().unwrap();
    assert_eq!(incident.len(), 2);
    assert!(incident.contains(&vec![1, 2, 3]));
    assert!(incident.contains(&vec![3, 4]));
    let triples = hg.get_incident_edges(3, Some(2), None).unwrap().unwrap();
    assert_eq!(triples, vec![vec![1, 2, 3]]);
    assert!(hg.get_incident_edges(42, None, None).unwrap().is_none());
    assert!(hg.get_incident_edges(3, Some(1), Some(2)).is_err());
}

#[test]
fn test_is_uniform() {
    let mut hg = Hypergraph::new(false);
    assert_eq!(hg.is_uniform(), Some(0));
    hg.add_edge(&vec![1, 2]);
    hg.add_edge(&vec![3, 4]);
    assert_eq!(hg.is_uniform(), Some(2));
    hg.add_edge(&vec![5, 6, 7]);
    assert_eq!(hg.is_uniform(), None);
}

#[test]
fn test_distrbution_orders() {
    let mut hg = Hypergraph::new(false);
    hg.add_edge(&vec![1, 2]);
    hg.add_edge(&vec![2, 3]);
    hg.add_edge(&vec![1, 2, 3]);
    let mut dist = hg.distrbution_orders();
    dist.sort();
    assert_eq!(dist, vec![(2, 2), (3, 1)]);
}

#[test]
fn test_iter_edges() {
    let mut hg = Hypergraph::new(true);
    hg.add_edge_weighted(&vec![1, 2], (7.5_f64).to_bits());
    let recs = hg.iter_edges();
    assert_eq!(recs.len(), 1);
    assert_eq!(recs[0].nodes, vec![1, 2]);
    assert_eq!(recs[0].weight, (7.5_f64).to_bits());
}

#[test]
fn test_is_isolated_self_loop() {
    let mut hg = Hypergraph::new(false);
    hg.add_edge(&vec![8]);
    assert_eq!(hg.is_isolated(8, None, None), Ok(Some(true)));
    hg.add_edge(&vec![8, 9]);
    assert_eq!(hg.is_isolated(8, None, None), Ok(Some(false)));
    assert_eq!(hg.is_isolated(42, None, None), Ok(None));
    assert!(hg.is_isolated(8, Some(1), Some(2)).is_err());
}

#[test]
fn test_isolated_nodes() {
    let mut hg = Hypergraph::new(false);
    hg.add_edge(&vec![1, 2]);
    hg.add_node(5);
    hg.add_edge(&vec![6]);
    let mut iso = hg.isolated_nodes(None, None).unwrap();
    iso.sort();
    assert_eq!(iso, vec![5, 6]);
    // under a size filter that matches no edge, every node is isolated
    let mut iso3 = hg.isolated_nodes(None, Some(3)).unwrap();
    iso3.sort();
    assert_eq!(iso3, vec![1, 2, 5, 6]);
    assert!(hg.isolated_nodes(Some(1), Some(2)).is_err());
}

#[test]
fn test_subhypergraph_roundtrip() {
    let mut hg = Hypergraph::new(true);
    hg.add_edge_weighted(&vec![1, 2], (1.5_f64).to_bits());
    hg.add_edge_weighted(&vec![2, 3, 4], (2.5_f64).to_bits());
    hg.add_node(9);
    let sub = hg.subhypergraph(&hg.get_nodes());
    assert_eq!(sub.num_nodes(), hg.num_nodes());
    assert_eq!(sub.num_edges(), hg.num_edges());
    assert!(sub.check_edge(&vec![1, 2]));
    assert!(sub.check_edge(&vec![2, 3, 4]));
    assert_eq!(sub.get_weight(&vec![1, 2]), Some((1.5_f64).to_bits()));
    assert_eq!(sub.get_weight(&vec![2, 3, 4]), Some((2.5_f64).to_bits()));
}

#[test]
fn test_subhypergraph_induced() {
    let mut hg = Hypergraph::new(false);
    hg.add_edge(&vec![1, 2]);
    hg.add_edge(&vec![2, 3]);
    let sub = hg.subhypergraph(&vec![1, 2]);
    assert_eq!(sub.num_nodes(), 2);
    assert!(sub.check_edge(&vec![1, 2]));
    assert!(!sub.check_edge(&vec![2, 3]));
    assert_eq!(sub.num_edges(), 1);
}

#[test]
fn test_subhypergraph_by_orders() {
    let mut hg = Hypergraph::new(false);
    hg.add_edge(&vec![1, 2]);
    hg.add_edge(&vec![1, 2, 3]);
    let sub = hg
        .subhypergraph_by_orders(None, Some(&vec![2]), true)
        .unwrap();
    assert_eq!(sub.num_nodes(), 3);
    assert!(sub.check_edge(&vec![1, 2]));
    assert!(!sub.check_edge(&vec![1, 2, 3]));
    let bare = hg
        .subhypergraph_by_orders(Some(&vec![2]), None, false)
        .unwrap();
    assert_eq!(bare.num_nodes(), 3);
    assert!(bare.check_edge(&vec![1, 2, 3]));
    assert!(hg.subhypergraph_by_orders(None, None, true).is_err());
    assert!(hg
        .subhypergraph_by_orders(Some(&vec![1]), Some(&vec![2]), true)
        .is_err());
}
