use mlc::bag::Weights;
use mlc::read::{graph_with_int_ids, graph_with_reset_ids, reset_ids, Edge, GraphError, UntranslatedEdge};
use mlc::store::LineError;
use petgraph::graph::{EdgeIndex, NodeIndex};

#[test]
fn weights_are_read_from_brackets() {
    assert_eq!(Weights::from_str("[3;0;10]").unwrap().0, vec![3, 0, 10]);
    assert_eq!(Weights::from_str("[7]").unwrap().0, vec![7]);
    assert_eq!(Weights::from_str("[]").err(), Some(LineError::InvalidNumber));
    assert_eq!(Weights::from_str("[1;]").err(), Some(LineError::InvalidNumber));
    assert_eq!(Weights::from_str("[1;x]").err(), Some(LineError::InvalidNumber));
    assert_eq!(Weights::from_str("").err(), Some(LineError::MissingField));
    assert_eq!(Weights::from_str("[").err(), Some(LineError::MissingField));
    assert_eq!(Weights::from_str("1;2").err(), Some(LineError::MissingField));
    assert_eq!(Weights::from_str("(1;2)").err(), Some(LineError::MissingField));
}

#[test]
fn weights_come_from_a_vector() {
    let w: Weights = vec![1u64, 2].into();
    assert_eq!(w.0, vec![1, 2]);
    assert_eq!(w.clone().0, vec![1, 2]);
}

fn named(u: &str, v: &str, weights: Vec<u64>, hidden: Option<Vec<u64>>) -> UntranslatedEdge {
    UntranslatedEdge {
        u: u.to_string(),
        v: v.to_string(),
        weights: Weights(weights),
        hidden_weights: hidden.map(Weights),
    }
}

#[test]
fn names_are_numbered_as_they_appear() {
    let edges = vec![
        named("10", "11", vec![1], None),
        named("11", "20", vec![2], Some(vec![5])),
        named("22", "10", vec![3], None),
    ];
    let (node_map, translated) = reset_ids(&edges);
    let mut expected = bimap::BiMap::new();
    expected.insert("10".to_string(), 0usize);
    expected.insert("11".to_string(), 1usize);
    expected.insert("20".to_string(), 2usize);
    expected.insert("22".to_string(), 3usize);
    assert_eq!(node_map, expected);
    let ends: Vec<(usize, usize)> = translated.iter().map(|e| (e.u, e.v)).collect();
    assert_eq!(ends, vec![(0, 1), (1, 2), (3, 0)]);
    assert_eq!(translated[1].weights.0, vec![2]);
    assert_eq!(translated[1].hidden_weights.as_ref().unwrap().0, vec![5]);
    assert!(translated[0].hidden_weights.is_none());
}

#[test]
fn a_graph_holds_the_edges_in_their_order() {
    let edges = vec![
        named("a", "b", vec![1, 2], Some(vec![9])),
        named("b", "c", vec![3, 4], None),
        named("a", "c", vec![5, 6], None),
    ];
    let (g, node_map) = graph_with_reset_ids(&edges).unwrap();
    assert_eq!(g.node_count(), 3);
    assert_eq!(g.edge_count(), 3);
    assert_eq!(node_map.get_by_left("c"), Some(&2));
    let (from, to) = g.edge_endpoints(EdgeIndex::new(2)).unwrap();
    assert_eq!((from.index(), to.index()), (0, 2));
    assert_eq!(g.edge_weight(EdgeIndex::new(0)).unwrap().weights, vec![1, 2]);
    assert_eq!(g.edge_weight(EdgeIndex::new(0)).unwrap().hidden_weights, vec![9]);
    assert!(g.edge_weight(EdgeIndex::new(1)).unwrap().hidden_weights.is_empty());
    assert!(g.node_weight(NodeIndex::new(1)).unwrap().is_empty());
}

#[test]
fn a_graph_has_a_node_for_every_index_up_to_the_largest() {
    let edges = vec![
        Edge { u: 0, v: 4, weights: Weights(vec![1]), hidden_weights: None },
        Edge { u: 2, v: 1, weights: Weights(vec![2]), hidden_weights: Some(Weights(vec![3])) },
    ];
    let g = graph_with_int_ids(&edges).unwrap();
    assert_eq!(g.node_count(), 5);
    assert_eq!(g.edge_count(), 2);
    let (from, to) = g.edge_endpoints(EdgeIndex::new(1)).unwrap();
    assert_eq!((from.index(), to.index()), (2, 1));
    let none = graph_with_int_ids(&vec![]).unwrap();
    assert_eq!(none.node_count(), 0);
}

#[test]
fn a_node_index_that_is_too_large_is_refused() {
    let edges = vec![Edge {
        u: 0,
        v: 0xffff_fffe,
        weights: Weights(vec![1]),
        hidden_weights: None,
    }];
    assert_eq!(graph_with_int_ids(&edges).err(), Some(GraphError::TooLarge));
}

#[test]
fn test_read_graph() {
    let edges = vec![
        named("10", "11", vec![1, 2], None),
        named("11", "20", vec![2, 1], None),
        named("20", "22", vec![3, 3], None),
        named("10", "22", vec![9, 9], None),
    ];
    let (_, node_map) = graph_with_reset_ids(&edges).unwrap();
    let expected_node_map = bimap::BiMap::from_iter(vec![
        ("10".to_string(), 0),
        ("11".to_string(), 1),
        ("20".to_string(), 2),
        ("22".to_string(), 3),
    ]);
    assert_eq!(node_map, expected_node_map);
}
