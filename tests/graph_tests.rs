use integral_graphs::graph::AdjMatrix;
use integral_graphs::GraphError;

#[test]
fn set_then_is_edge_is_true_and_symmetric() {
    let mut g = AdjMatrix::empty(7).unwrap();
    for a in 0..7u32 {
        for b in 0..7u32 {
            if a != b {
                g.set(a, b, true).unwrap();
                assert_eq!(g.is_edge(a, b), Ok(true));
                assert_eq!(g.is_edge(b, a), Ok(true));
                g.set(b, a, false).unwrap();
                assert_eq!(g.is_edge(a, b), Ok(false));
            }
        }
    }
}

#[test]
fn is_edge_rejects_bad_indices() {
    let g = AdjMatrix::empty(4).unwrap();
    assert_eq!(g.is_edge(2, 2), Err(GraphError::Index));
    assert_eq!(g.is_edge(0, 4), Err(GraphError::Index));
    assert_eq!(g.is_edge(9, 1), Err(GraphError::Index));
}

#[test]
fn set_rejects_bad_indices() {
    let mut g = AdjMatrix::empty(3).unwrap();
    assert_eq!(g.set(1, 1, true), Err(GraphError::Index));
    assert_eq!(g.set(0, 3, true), Err(GraphError::Index));
    assert_eq!(g.graph6().unwrap(), "B?");
}

#[test]
fn empty_rejects_bad_sizes() {
    assert!(matches!(AdjMatrix::empty(0), Err(GraphError::Size)));
    assert!(matches!(AdjMatrix::empty(0x1_0000_0002), Err(GraphError::Size)));
}

#[test]
fn growing_keeps_existing_edges() {
    let mut g = AdjMatrix::empty(5).unwrap();
    g.set(0, 1, true).unwrap();
    g.set(2, 4, true).unwrap();
    g.set(3, 1, true).unwrap();
    let before: Vec<Vec<bool>> = (0..5u32)
        .map(|a| (0..5u32).map(|b| a != b && g.is_edge(a, b).unwrap()).collect())
        .collect();
    g.grow(11).unwrap();
    assert_eq!(g.last_node(), 11);
    for a in 0..5u32 {
        for b in 0..5u32 {
            if a != b {
                assert_eq!(g.is_edge(a, b).unwrap(), before[a as usize][b as usize]);
            }
        }
    }
    for a in 0..12u32 {
        for b in 5..12u32 {
            if a != b {
                assert_eq!(g.is_edge(a, b), Ok(false));
            }
        }
    }
}

#[test]
fn grow_to_smaller_changes_nothing() {
    let mut g = AdjMatrix::empty(4).unwrap();
    g.set(0, 3, true).unwrap();
    g.grow(2).unwrap();
    assert_eq!(g.last_node(), 3);
    assert_eq!(g.is_edge(3, 0), Ok(true));
}

#[test]
fn graph6_of_single_node() {
    let g = AdjMatrix::empty(1).unwrap();
    assert_eq!(g.graph6().unwrap(), "@");
    assert_eq!(g.base64(), "");
}

#[test]
fn graph6_rejects_63_nodes_or_more() {
    assert_eq!(AdjMatrix::empty(63).unwrap().graph6(), Err(GraphError::EncodingRange));
    assert_eq!(AdjMatrix::empty(100).unwrap().graph6(), Err(GraphError::EncodingRange));
    assert!(AdjMatrix::empty(62).unwrap().graph6().is_ok());
}

#[test]
fn graph6_of_small_graphs() {
    assert_eq!(AdjMatrix::complete(3).unwrap().graph6().unwrap(), "Bw");
    assert_eq!(AdjMatrix::complete(4).unwrap().graph6().unwrap(), "C~");
    let mut g = AdjMatrix::empty(3).unwrap();
    g.set(1, 0, true).unwrap();
    assert_eq!(g.graph6().unwrap(), "B_");
    // The path 0-1-2-3-4: pairs (0,1) (1,2) (2,3) (3,4) at bits 0, 2, 5, 9.
    let mut p = AdjMatrix::empty(5).unwrap();
    for i in 0..4u32 {
        p.set(i, i + 1, true).unwrap();
    }
    assert_eq!(p.graph6().unwrap(), "DhC");
}

#[test]
fn complete_links_every_pair() {
    let g = AdjMatrix::complete(6).unwrap();
    for a in 0..6u32 {
        for b in 0..6u32 {
            if a != b {
                assert_eq!(g.is_edge(a, b), Ok(true));
            }
        }
    }
}

#[test]
fn adjacency_lists_are_ascending() {
    let mut g = AdjMatrix::empty(5).unwrap();
    g.set(2, 4, true).unwrap();
    g.set(2, 0, true).unwrap();
    g.set(3, 2, true).unwrap();
    assert_eq!(g.adj_list(2), vec![0, 3, 4]);
    assert_eq!(g.adj_list(1), Vec::<u32>::new());
    let lists = g.adj_lists();
    assert_eq!(
        lists,
        vec![
            (0, vec![2]),
            (1, vec![]),
            (2, vec![0, 3, 4]),
            (3, vec![2]),
            (4, vec![2]),
        ]
    );
}

#[test]
fn from_adj_lists_grows_on_demand() {
    let g = AdjMatrix::from_adj_lists(vec![(0, vec![1, 5]), (3, vec![2]), (7, vec![])]).unwrap();
    assert_eq!(g.last_node(), 7);
    assert_eq!(g.is_edge(1, 0), Ok(true));
    assert_eq!(g.is_edge(0, 5), Ok(true));
    assert_eq!(g.is_edge(2, 3), Ok(true));
    assert_eq!(g.is_edge(1, 2), Ok(false));
    assert_eq!(g.adj_list(7), Vec::<u32>::new());
}

#[test]
fn from_adj_lists_round_trips_adj_lists() {
    let mut g = AdjMatrix::empty(6).unwrap();
    g.set(0, 5, true).unwrap();
    g.set(1, 2, true).unwrap();
    g.set(4, 3, true).unwrap();
    let h = AdjMatrix::from_adj_lists(g.adj_lists()).unwrap();
    assert_eq!(h.graph6().unwrap(), g.graph6().unwrap());
}

#[test]
fn from_adj_lists_of_nothing_is_one_node() {
    let g = AdjMatrix::from_adj_lists(vec![]).unwrap();
    assert_eq!(g.last_node(), 0);
    assert_eq!(g.graph6().unwrap(), "@");
}

#[test]
fn from_adj_lists_rejects_self_loops() {
    let r = AdjMatrix::from_adj_lists(vec![(0, vec![1]), (2, vec![3, 2])]);
    assert!(matches!(r, Err(GraphError::Index)));
}

#[test]
fn from_pair_bits_sets_each_pair() {
    let g = AdjMatrix::from_pair_bits(4, &vec![true, false, true, false, false, true]).unwrap();
    assert_eq!(g.is_edge(0, 1), Ok(true));
    assert_eq!(g.is_edge(0, 2), Ok(false));
    assert_eq!(g.is_edge(1, 2), Ok(true));
    assert_eq!(g.is_edge(0, 3), Ok(false));
    assert_eq!(g.is_edge(1, 3), Ok(false));
    assert_eq!(g.is_edge(2, 3), Ok(true));
    assert!(matches!(AdjMatrix::from_pair_bits(4, &vec![true]), Err(GraphError::Domain)));
}

#[test]
fn pair_count_is_triangular() {
    assert_eq!(AdjMatrix::empty(1).unwrap().pair_count(), 0);
    assert_eq!(AdjMatrix::empty(13).unwrap().pair_count(), 78);
}

#[test]
fn text_lists_upper_triangle_rows() {
    let mut g = AdjMatrix::empty(4).unwrap();
    g.set(0, 1, true).unwrap();
    g.set(1, 2, true).unwrap();
    g.set(3, 0, true).unwrap();
    assert_eq!(g.to_text(), "1\n01\n100");
    assert_eq!(AdjMatrix::empty(1).unwrap().to_text(), "");
    assert_eq!(AdjMatrix::complete(3).unwrap().to_text(), "1\n11");
}
