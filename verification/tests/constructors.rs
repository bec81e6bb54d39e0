use hgraph::Hypergraph;

#[test]
pub fn test1() {
    let mut mat = Hypergraph::new(true);
    for i in 0..10 {
        mat.add_node(i);
    }

    mat.add_edge(&vec![0, 2, 5, 6]);
    mat.add_edge(&vec![3, 4, 5, 9]);
    mat.add_edge(&vec![10, 11, 5]);

    println!("mat = {:?}", mat);
    assert_eq!(mat.num_nodes(), 12);
    assert_eq!(mat.num_edges(), 3);
}

#[test]
pub fn test2() {
    let mut edges = Vec::new();
    edges.push(vec![1, 3, 5]);
    edges.push(vec![1, 2, 4]);
    edges.push(vec![3, 4, 6]);

    let weights = vec![
        (27.7_f64).to_bits(),
        (18.1_f64).to_bits(),
        (2.7_f64).to_bits(),
        (8.9_f64).to_bits(),
    ];

    let mut mat = Hypergraph::from_weighted(&edges, &weights);

    println!("max order = {}", mat.max_order());
    assert_eq!(mat.max_order(), 2);

    mat.add_edge_weighted(&vec![1, 6, 3, 5], (100.7_f64).to_bits());
    mat.add_node(-3);
    println!("distribution orders: {:?}", mat.distrbution_orders());

    println!("test2: {:?}", mat);
    mat.remove_node(-3);
    mat.remove_node(5);

    println!("test2: {:?}", mat);
    assert!(!mat.check_node(-3));
    assert!(!mat.check_node(5));
    assert!(mat.check_edge(&vec![1, 3]));
    assert!(mat.check_edge(&vec![1, 6, 3]));
}

#[test]
fn test_from_deduplicates() {
    let edges = vec![vec![1, 2], vec![2, 3], vec![1, 2]];
    let hg = Hypergraph::from(&edges);
    assert_eq!(hg.num_edges(), 2);
    assert_eq!(hg.num_nodes(), 3);
    assert!(!hg.is_weighted());
    assert_eq!(hg.get_weight(&vec![1, 2]), Some(0));
}

#[test]
fn test_from_weighted_later_weight_wins() {
    let edges = vec![vec![1, 2], vec![1, 2]];
    let weights = vec![(1.5_f64).to_bits(), (2.5_f64).to_bits()];
    let hg = Hypergraph::from_weighted(&edges, &weights);
    assert_eq!(hg.num_edges(), 1);
    assert_eq!(hg.get_weight(&vec![1, 2]), Some((2.5_f64).to_bits()));
}

#[test]
fn test_from_weighted_excess_edges_default_to_zero() {
    let edges = vec![vec![1, 2], vec![3, 4], vec![5, 6]];
    let weights = vec![(4.25_f64).to_bits()];
    let hg = Hypergraph::from_weighted(&edges, &weights);
    assert_eq!(hg.get_weight(&vec![1, 2]), Some((4.25_f64).to_bits()));
    assert_eq!(hg.get_weight(&vec![3, 4]), Some(0));
    assert_eq!(hg.get_weight(&vec![5, 6]), Some(0));
}

#[test]
fn test_empty_hypergraph_conventions() {
    let hg = Hypergraph::new(false);
    assert_eq!(hg.num_nodes(), 0);
    assert_eq!(hg.num_edges(), 0);
    assert_eq!(hg.max_size(), 0);
    assert_eq!(hg.max_order(), 0);
    assert_eq!(hg.is_uniform(), Some(0));
    assert!(hg.get_weights().is_none());
    assert!(hg.get_sizes().is_none());
    assert!(hg.get_orders().is_none());
    assert!(hg.get_edges().is_none());
    assert_eq!(hg.num_ccs(None, None), Ok(0));
    assert_eq!(hg.is_connected(None, None), Ok(true));
}
