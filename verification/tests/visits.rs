use hgraph::visits::{_bfs, _dfs};
use hgraph::{Hypergraph, NodeSet};

#[test]
fn test_bfs_0() {
    let mut hg = Hypergraph::new(true);
    hg.add_nodes(&vec![1, 2, 3, 4, 5, 6]);

    hg.add_edge(&vec![1, 2]);
    hg.add_edge_weighted(&vec![2, 3, 4], (27.7_f64).to_bits());
    hg.add_edge(&vec![2, 3, 5]);
    hg.add_edge(&vec![4, 6, 5]);

    let result = _bfs(&hg, 1, None, None, None);
    let expected = NodeSet::from_vec(&vec![1, 2, 3, 4, 5, 6]);

    assert_eq!(result, expected);
}

#[test]
fn test_bfs_cycle() {
    let edges = vec![
        vec![1, 3, 7],
        vec![2, 4, 3],
        vec![5, 6, 4],
        vec![7, 6, 9],
        vec![3, 9],
    ];

    let hg = Hypergraph::from(&edges);

    let result = _bfs(&hg, 1, None, None, None);
    let expected = NodeSet::from_vec(&vec![1, 2, 3, 4, 5, 6, 7, 9]);

    assert_eq!(result, expected);
}

#[test]
fn test_bfs_depth_limit() {
    let mut hg = Hypergraph::new(false);

    hg.add_edge(&vec![1, 2]);
    hg.add_edge(&vec![2, 3]);
    hg.add_edge(&vec![3, 4]);

    let result = _bfs(&hg, 1, Some(2), None, None);
    let expected = NodeSet::from_vec(&vec![1, 2, 3]);

    assert_eq!(result, expected);
}

#[test]
fn test_bfs_with_size() {
    let mut hg = Hypergraph::new(true);

    hg.add_edge(&vec![1, 2, 3]);
    hg.add_edge(&vec![2, 5]);
    hg.add_edge_weighted(&vec![5, 1], (45.9_f64).to_bits());
    hg.add_edge_weighted(&vec![3, 4], (100.1_f64).to_bits());

    let result = _bfs(&hg, 1, None, None, Some(2));
    let expected = NodeSet::from_vec(&vec![1, 5, 2]);

    assert_eq!(result, expected);
}

#[test]
fn test_dfs_0() {
    let mut hg = Hypergraph::new(true);
    hg.add_nodes(&vec![1, 2, 3, 4, 5, 6]);

    hg.add_edge(&vec![1, 2]);
    hg.add_edge_weighted(&vec![2, 3, 4], (27.7_f64).to_bits());
    hg.add_edge(&vec![2, 3, 5]);
    hg.add_edge(&vec![4, 6, 5]);

    let result = _dfs(&hg, 1, None, None, None);
    let expected = NodeSet::from_vec(&vec![1, 2, 3, 4, 5, 6]);

    assert_eq!(result, expected);
}

#[test]
fn test_dfs_cycle() {
    let edges = vec![
        vec![1, 3, 7],
        vec![2, 4, 3],
        vec![5, 6, 4],
        vec![7, 6, 9],
        vec![3, 9],
    ];

    let hg = Hypergraph::from(&edges);

    let result = _dfs(&hg, 1, None, None, None);
    let expected = NodeSet::from_vec(&vec![1, 2, 3, 4, 5, 6, 7, 9]);

    assert_eq!(result, expected);
}

#[test]
fn test_dfs_depth_limit() {
    let mut hg = Hypergraph::new(false);

    hg.add_edge(&vec![1, 2]);
    hg.add_edge(&vec![2, 3]);
    hg.add_edge(&vec![3, 4]);

    let result = _dfs(&hg, 1, Some(2), None, None);
    let expected = NodeSet::from_vec(&vec![1, 2, 3]);

    assert_eq!(result, expected);
}

#[test]
fn test_dfs_with_size() {
    let mut hg = Hypergraph::new(true);

    hg.add_edge(&vec![1, 2, 3]);
    hg.add_edge(&vec![2, 5]);
    hg.add_edge_weighted(&vec![5, 1], (45.9_f64).to_bits());
    hg.add_edge_weighted(&vec![3, 4], (100.1_f64).to_bits());

    let result = _dfs(&hg, 1, None, None, Some(2));
    let expected = NodeSet::from_vec(&vec![1, 5, 2]);

    assert_eq!(result, expected);
}

#[test]
fn test_bfs_absent_start_is_empty() {
    let mut hg = Hypergraph::new(false);
    hg.add_edge(&vec![1, 2]);
    let result = _bfs(&hg, 42, None, None, None);
    assert_eq!(result.len(), 0);
    let result = _dfs(&hg, 42, None, None, None);
    assert_eq!(result.len(), 0);
}

#[test]
fn test_components_partition() {
    let mut hg = Hypergraph::new(false);
    hg.add_edge(&vec![1, 2]);
    hg.add_edge(&vec![2, 3]);
    hg.add_edge(&vec![10, 11]);
    hg.add_node(20);

    let comps = hg.ccs(None, None).unwrap();
    assert_eq!(comps.len(), 3);
    // pairwise disjoint, and the union covers every node exactly once
    let mut total = 0;
    for c in comps.iter() {
        total += c.len();
    }
    assert_eq!(total, hg.num_nodes());
    for a in 0..comps.len() {
        for b in 0..comps.len() {
            if a != b {
                for n in comps[a].to_vec().iter() {
                    assert!(!comps[b].contains(*n));
                }
            }
        }
    }
    assert_eq!(hg.num_ccs(None, None), Ok(3));
    assert_eq!(hg.is_connected(None, None), Ok(false));
    assert_eq!(hg.largest_cc_size(None, None), Ok(3));
    let largest = hg.largest_cc(None, None).unwrap();
    assert_eq!(largest, NodeSet::from_vec(&vec![1, 2, 3]));
}

#[test]
fn test_node_cc() {
    let mut hg = Hypergraph::new(false);
    hg.add_edge(&vec![1, 2]);
    hg.add_edge(&vec![3, 4]);
    let c = hg.node_cc(1, None, None).unwrap();
    assert_eq!(c, NodeSet::from_vec(&vec![1, 2]));
    let absent = hg.node_cc(9, None, None).unwrap();
    assert_eq!(absent.len(), 0);
    assert!(hg.node_cc(1, Some(1), Some(2)).is_err());
}

#[test]
fn test_components_with_filter() {
    let mut hg = Hypergraph::new(false);
    hg.add_edge(&vec![1, 2]);
    hg.add_edge(&vec![2, 3, 4]);
    // unfiltered: everything hangs together
    assert_eq!(hg.num_ccs(None, None), Ok(1));
    assert_eq!(hg.is_connected(None, None), Ok(true));
    // only pairwise edges considered: {1,2} stays connected, 3 and 4 fall apart
    assert_eq!(hg.num_ccs(None, Some(2)), Ok(3));
    let comps = hg.ccs(None, Some(2)).unwrap();
    assert_eq!(comps.len(), 3);
    assert_eq!(hg.largest_cc_size(None, Some(2)), Ok(2));
    assert_eq!(
        hg.largest_cc(None, Some(2)).unwrap(),
        NodeSet::from_vec(&vec![1, 2])
    );
    assert_eq!(hg.is_connected(None, Some(2)), Ok(false));
    let c3 = hg.node_cc(3, None, Some(2)).unwrap();
    assert_eq!(c3, NodeSet::from_vec(&vec![3]));
    // only triple edges considered: 1 is cut off instead
    assert_eq!(hg.num_ccs(Some(2), None), Ok(2));
}
