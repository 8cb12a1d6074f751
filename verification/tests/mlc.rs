use mlc::bag::{Label, WeightsTuple};
use mlc::graph::MLCGraph;
use mlc::bag::{Bag, Weights};
use mlc::mlc::{accept_update, LabelUpdate, MLCError, Unchanged, MLC};
use mlc::read::{graph_with_int_ids, Edge};
use mlc::store::parse_bags;
use petgraph::graph::NodeIndex;

fn graph_of(edges: &[(usize, usize, Vec<u64>, Vec<u64>)]) -> MLCGraph {
    MLCGraph::from_edges(edges.iter().map(|(u, v, w, h)| {
        (
            NodeIndex::new(*u),
            NodeIndex::new(*v),
            WeightsTuple { weights: w.clone(), hidden_weights: h.clone() },
        )
    }))
}

fn values_at(mlc_bags: &std::collections::HashMap<usize, mlc::bag::Bag<usize>>, node: usize) -> Vec<Vec<u64>> {
    let mut values: Vec<Vec<u64>> = match mlc_bags.get(&node) {
        Some(bag) => bag.labels.iter().map(|l| l.values.clone()).collect(),
        None => vec![],
    };
    values.sort();
    values
}

#[test]
fn two_criteria_give_two_labels_per_node() {
    let g = graph_of(&[
        (0, 1, vec![2, 5], vec![]),
        (0, 1, vec![5, 2], vec![]),
        (1, 2, vec![1, 1], vec![]),
    ]);
    let mut mlc = MLC::new(&g).unwrap();
    mlc.set_start_node(0);
    let bags = mlc.run().unwrap();
    assert_eq!(values_at(bags, 0), vec![vec![0, 0]]);
    assert_eq!(values_at(bags, 1), vec![vec![2, 5], vec![5, 2]]);
    assert_eq!(values_at(bags, 2), vec![vec![3, 6], vec![6, 3]]);
}

#[test]
fn a_dominated_edge_leaves_no_label() {
    let g = graph_of(&[(0, 1, vec![1, 1], vec![]), (0, 1, vec![2, 2], vec![])]);
    let mut mlc = MLC::new(&g).unwrap();
    mlc.set_start_node(0);
    let bags = mlc.run().unwrap();
    assert_eq!(values_at(bags, 1), vec![vec![1, 1]]);
}

#[test]
fn paths_end_with_the_node_before() {
    let g = graph_of(&[(0, 1, vec![1], vec![]), (1, 2, vec![1], vec![])]);
    let mut mlc = MLC::new(&g).unwrap();
    mlc.set_start_node(0);
    let bags = mlc.run().unwrap();
    assert_eq!(bags[&0].labels[0].path, vec![0]);
    assert_eq!(bags[&1].labels[0].path, vec![0, 0]);
    assert_eq!(bags[&2].labels[0].path, vec![0, 0, 1]);
    assert_eq!(bags[&2].labels[0].node_id, 2);
}

#[test]
fn without_paths_labels_carry_none() {
    let g = graph_of(&[(0, 1, vec![1], vec![]), (1, 2, vec![1], vec![])]);
    let mut mlc = MLC::new(&g).unwrap();
    mlc.set_disable_paths(true);
    mlc.set_start_node(0);
    let bags = mlc.run().unwrap();
    assert!(bags[&0].labels[0].path.is_empty());
    assert!(bags[&2].labels[0].path.is_empty());
    assert_eq!(bags[&2].labels[0].values, vec![2]);
}

#[test]
fn a_cycle_without_weight_ends() {
    let g = graph_of(&[
        (0, 1, vec![0, 0], vec![]),
        (1, 0, vec![0, 0], vec![]),
        (1, 2, vec![1, 2], vec![]),
    ]);
    let mut mlc = MLC::new(&g).unwrap();
    mlc.set_start_node(0);
    let bags = mlc.run().unwrap();
    assert_eq!(values_at(bags, 0), vec![vec![0, 0]]);
    assert_eq!(values_at(bags, 1), vec![vec![0, 0]]);
    assert_eq!(values_at(bags, 2), vec![vec![1, 2]]);
}

#[test]
fn a_start_time_is_the_first_cost() {
    let g = graph_of(&[(0, 1, vec![2, 5], vec![3])]);
    let mut mlc = MLC::new(&g).unwrap();
    mlc.set_start_node_with_time(0, 100);
    let bags = mlc.run().unwrap();
    assert_eq!(values_at(bags, 0), vec![vec![100, 0]]);
    assert_eq!(values_at(bags, 1), vec![vec![102, 5]]);
    assert_eq!(bags[&1].labels[0].hidden_values, vec![3]);
}

#[test]
fn a_graph_without_edges_is_refused() {
    let mut g = MLCGraph::new();
    g.add_node(vec![]);
    assert!(matches!(MLC::new(&g), Err(MLCError::GraphHasNoEdges)));
}

#[test]
fn edges_with_different_numbers_of_weights_are_refused() {
    let g = graph_of(&[(0, 1, vec![1, 1], vec![]), (1, 2, vec![1], vec![])]);
    assert!(matches!(MLC::new(&g), Err(MLCError::InconsistentEdgeWeights)));
    let h = graph_of(&[(0, 1, vec![1], vec![1]), (1, 2, vec![1], vec![])]);
    assert!(matches!(MLC::new(&h), Err(MLCError::InconsistentEdgeWeights)));
}

#[test]
fn a_run_without_a_start_is_refused() {
    let g = graph_of(&[(0, 1, vec![1], vec![])]);
    let mut mlc = MLC::new(&g).unwrap();
    assert!(matches!(mlc.run(), Err(MLCError::EmptyStartingQueue)));
}

#[test]
fn limits_without_a_category_are_refused() {
    let g = graph_of(&[(0, 1, vec![1, 1], vec![])]);
    let mut mlc = MLC::new(&g).unwrap();
    mlc.set_enable_limit(true);
    mlc.set_start_node(0);
    assert!(matches!(mlc.run(), Err(MLCError::LimitsUninitialized)));
}

#[test]
fn a_cost_that_is_too_large_stops_the_run() {
    let g = graph_of(&[(0, 1, vec![u64::MAX], vec![]), (1, 2, vec![1], vec![])]);
    let mut mlc = MLC::new(&g).unwrap();
    mlc.set_start_node(0);
    assert!(matches!(mlc.run(), Err(MLCError::WeightOverflow(1))));
}

#[test]
fn a_name_needs_a_node_map() {
    let g = graph_of(&[(0, 1, vec![1], vec![])]);
    let mut mlc = MLC::new(&g).unwrap();
    assert!(matches!(
        mlc.set_external_start_node("a".to_string()),
        Err(MLCError::NodeMapNotSet)
    ));
    let mut names = bimap::BiMap::new();
    names.insert("a".to_string(), 0usize);
    names.insert("b".to_string(), 1usize);
    mlc.set_node_map(names);
    match mlc.set_external_start_node("c".to_string()) {
        Err(MLCError::StartNodeNotFound(name)) => assert_eq!(name, "c"),
        _ => panic!("the name is not in the map"),
    }
    assert!(mlc.set_external_start_node("b".to_string()).is_ok());
    let bags = mlc.run().unwrap();
    assert_eq!(values_at(bags, 1), vec![vec![0]]);
    assert_eq!(values_at(bags, 0), Vec::<Vec<u64>>::new());
}

struct Tariff {
    interval: u64,
}

impl LabelUpdate for Tariff {
    fn update(&self, _old_label: &Label<usize>, new_label: &Label<usize>) -> Label<usize> {
        let mut values = new_label.values.clone();
        values[1] += new_label.hidden_values[0] / self.interval;
        Label {
            values,
            hidden_values: new_label.hidden_values.clone(),
            path: new_label.path.clone(),
            node_id: new_label.node_id,
        }
    }
}

#[test]
fn a_label_update_rewrites_every_extended_label() {
    // three edges in a row; the hidden weight is a distance, and every edge
    // costs one more for each full 10 of the distance so far
    let g = graph_of(&[
        (0, 1, vec![1, 0], vec![5]),
        (1, 2, vec![1, 0], vec![7]),
        (2, 3, vec![1, 0], vec![9]),
    ]);
    let mut mlc = MLC::new(&g).unwrap();
    mlc.set_update_label_func(Box::new(Tariff { interval: 10 }));
    mlc.set_start_node(0);
    let bags = mlc.run().unwrap();
    // hidden: 5, 12, 21; surcharge: 0, 1, 2; cost: 0, 1, 3
    assert_eq!(values_at(bags, 1), vec![vec![1, 0]]);
    assert_eq!(values_at(bags, 2), vec![vec![2, 1]]);
    assert_eq!(values_at(bags, 3), vec![vec![3, 3]]);
    assert_eq!(bags[&3].labels[0].hidden_values, vec![21]);
}

struct Elsewhere;

impl LabelUpdate for Elsewhere {
    fn update(&self, _old_label: &Label<usize>, new_label: &Label<usize>) -> Label<usize> {
        Label {
            values: new_label.values.clone(),
            hidden_values: new_label.hidden_values.clone(),
            path: new_label.path.clone(),
            node_id: new_label.node_id + 1,
        }
    }
}

#[test]
fn a_label_update_that_moves_the_label_stops_the_run() {
    let g = graph_of(&[(0, 1, vec![1], vec![])]);
    let mut mlc = MLC::new(&g).unwrap();
    mlc.set_update_label_func(Box::new(Elsewhere));
    mlc.set_start_node(0);
    assert!(matches!(mlc.run(), Err(MLCError::InvalidLabelUpdate(1))));
}

#[test]
fn limits_drop_labels_that_every_category_covers() {
    // node 1 and node 2 are shops. The label (time 1, cost 1) at node 1 covers
    // the label (time 2, cost 2), which therefore is not expanded from node 2.
    let mut g = MLCGraph::new();
    let a = g.add_node(vec![]);
    let b = g.add_node(vec![7]);
    let c = g.add_node(vec![7]);
    let d = g.add_node(vec![]);
    g.add_edge(a, b, WeightsTuple { weights: vec![1, 1], hidden_weights: vec![] });
    g.add_edge(a, c, WeightsTuple { weights: vec![2, 2], hidden_weights: vec![] });
    g.add_edge(c, d, WeightsTuple { weights: vec![1, 1], hidden_weights: vec![] });
    let mut mlc = MLC::new(&g).unwrap();
    mlc.set_enable_limit(true);
    mlc.set_start_node(0);
    let bags = mlc.run().unwrap();
    assert_eq!(values_at(bags, 1), vec![vec![1, 1]]);
    assert_eq!(values_at(bags, 2), vec![vec![2, 2]]);
    assert_eq!(values_at(bags, 3), Vec::<Vec<u64>>::new());

    let mut free = MLC::new(&g).unwrap();
    free.set_start_node(0);
    let bags = free.run().unwrap();
    assert_eq!(values_at(bags, 3), vec![vec![3, 3]]);
}

#[test]
fn a_search_can_be_driven_label_by_label() {
    let g = graph_of(&[
        (0, 1, vec![2, 5], vec![]),
        (0, 1, vec![5, 2], vec![]),
        (1, 2, vec![1, 1], vec![]),
    ]);
    let mut mlc = MLC::new(&g).unwrap();
    assert!(matches!(mlc.start(), Err(MLCError::EmptyStartingQueue)));
    mlc.set_start_node(0);
    assert_eq!(mlc.queue_len(), 1);
    mlc.start().unwrap();
    let mut steps = 0;
    while mlc.advance().unwrap() {
        steps += 1;
    }
    // the start label, two labels at node 1, two labels at node 2
    assert_eq!(steps, 5);
    assert_eq!(mlc.queue_len(), 0);
    assert_eq!(values_at(mlc.bags(), 2), vec![vec![3, 6], vec![6, 3]]);
    assert!(!mlc.advance().unwrap());
}

#[test]
fn bags_can_be_given_to_start_from() {
    let g = graph_of(&[(0, 1, vec![1, 1], vec![]), (1, 2, vec![1, 1], vec![])]);
    let mut bags = std::collections::HashMap::new();
    let mut bag = mlc::bag::Bag::new_empty();
    bag.add_if_necessary(Label { values: vec![4, 0], hidden_values: vec![], path: vec![], node_id: 1 });
    bag.add_if_necessary(Label { values: vec![0, 4], hidden_values: vec![], path: vec![], node_id: 1 });
    bags.insert(1, bag);
    let mut mlc = MLC::new(&g).unwrap();
    mlc.set_bags(bags);
    assert_eq!(mlc.queue_len(), 2);
    let found = mlc.run().unwrap();
    assert_eq!(values_at(found, 1), vec![vec![0, 4], vec![4, 0]]);
    assert_eq!(values_at(found, 2), vec![vec![1, 5], vec![5, 1]]);
    assert_eq!(values_at(found, 0), Vec::<Vec<u64>>::new());
}

#[test]
fn a_label_at_a_node_without_a_bag_stops_the_run() {
    let g = graph_of(&[(0, 1, vec![1], vec![])]);
    let mut mlc = MLC::new(&g).unwrap();
    mlc.set_start_node(0);
    // other bags take the place of the bag of node 0, whose label still waits
    let mut bags = std::collections::HashMap::new();
    bags.insert(1, mlc::bag::Bag::new_start_bag(Label {
        values: vec![5],
        hidden_values: vec![],
        path: vec![],
        node_id: 1,
    }));
    mlc.set_bags(bags);
    assert!(matches!(mlc.run(), Err(MLCError::UnknownNodeId(0))));
}

#[test]
fn bags_are_given_with_the_names_of_the_nodes() {
    let g = graph_of(&[(0, 1, vec![3], vec![8])]);
    let mut mlc = MLC::new(&g).unwrap();
    mlc.set_start_node(0);
    mlc.run().unwrap();
    assert!(matches!(mlc.translate_bags(mlc.bags()), Err(MLCError::NodeMapNotSet)));
    let mut names = bimap::BiMap::new();
    names.insert("here".to_string(), 0usize);
    mlc.set_node_map(names);
    assert!(matches!(mlc.translate_bags(mlc.bags()), Err(MLCError::UnknownNodeId(1))));
    let mut names = bimap::BiMap::new();
    names.insert("here".to_string(), 0usize);
    names.insert("there".to_string(), 1usize);
    mlc.set_node_map(names);
    let mut named = mlc.translate_bags(mlc.bags()).unwrap();
    named.sort_by(|a, b| a.0.cmp(&b.0));
    assert_eq!(named[0].0, "here");
    assert_eq!(named[1].0, "there");
    assert_eq!(named[1].1.labels[0].node_id, "there");
    assert_eq!(named[1].1.labels[0].path, vec!["here".to_string(), "here".to_string()]);
    assert_eq!(named[1].1.labels[0].values, vec![3]);
    assert_eq!(named[1].1.labels[0].hidden_values, vec![8]);
    let text = mlc::store::format_named_bags(&named);
    assert_eq!(text, b"node_id|path|weights\nhere|here|0,0\nthere|here,here|3,8\n".to_vec());
}

#[test]
fn errors_say_what_went_wrong() {
    assert_eq!(
        MLCError::StartNodeNotFound("x".to_string()).to_string(),
        "Start node not found: x"
    );
    assert_eq!(MLCError::NodeMapNotSet.to_string(), "Node map not set");
    assert_eq!(MLCError::UnknownNodeId(120).to_string(), "Unknown node id: 120");
    assert_eq!(
        MLCError::EmptyStartingQueue.to_string(),
        "Starting queue is empty. Specify either a start node or a starting queue."
    );
    assert_eq!(MLCError::GraphHasNoEdges.to_string(), "Graph has no edges");
    assert_eq!(
        MLCError::InconsistentEdgeWeights.to_string(),
        "Graph has inconsistent edge weights"
    );
    assert_eq!(
        MLCError::LimitsUninitialized.to_string(),
        "Limits must be initialized before running the algorithm"
    );
    assert_eq!(MLCError::WeightOverflow(0).to_string(), "Weight overflow at node: 0");
    assert_eq!(
        MLCError::InvalidLabelUpdate(7).to_string(),
        "Invalid label update at node: 7"
    );
}

#[test]
fn a_node_map_is_written_name_by_name() {
    let g = graph_of(&[(0, 1, vec![3], vec![])]);
    let mut mlc = MLC::new(&g).unwrap();
    assert!(mlc.node_map_as_csv().is_none());
    let mut names = bimap::BiMap::new();
    names.insert("here".to_string(), 0usize);
    mlc.set_node_map(names);
    assert_eq!(mlc.node_map_as_csv().unwrap(), b"node_id,mlc_node_id\nhere,0\n".to_vec());
    let mut names = bimap::BiMap::new();
    names.insert("here".to_string(), 0usize);
    names.insert("there".to_string(), 12usize);
    let text = mlc::store::format_node_map(&names);
    let text = String::from_utf8(text).unwrap();
    let mut lines: Vec<&str> = text.lines().collect();
    assert_eq!(lines.remove(0), "node_id,mlc_node_id");
    lines.sort();
    assert_eq!(lines, vec!["here,0", "there,12"]);
    assert!(text.ends_with('\n'));
}

#[test]
fn pairs_are_written_in_their_order() {
    let pairs = vec![("b".to_string(), 7usize), ("a".to_string(), 10usize)];
    assert_eq!(mlc::store::format_pairs(&pairs), b"node_id,mlc_node_id\nb,7\na,10\n".to_vec());
    assert_eq!(mlc::store::format_pairs(&vec![]), b"node_id,mlc_node_id\n".to_vec());
}

#[test]
fn test_run_mlc() {
    let edges = vec![
        Edge { u: 0, v: 1, weights: Weights(vec![2, 5]), hidden_weights: None },
        Edge { u: 0, v: 1, weights: Weights(vec![5, 2]), hidden_weights: None },
        Edge { u: 1, v: 2, weights: Weights(vec![1, 1]), hidden_weights: None },
    ];
    let g = graph_with_int_ids(&edges).unwrap();

    let mut mlc = MLC::new(&g).unwrap();
    mlc.set_start_node(0);
    let bags = mlc.run().unwrap();
    let results = b"node_id|path|weights\n0|0|0,0\n1|0,0|2,5\n1|0,0|5,2\n2|0,0,1|3,6\n2|0,0,1|6,3\n";
    let expected_result = parse_bags(results).unwrap();
    assert!(bags == &expected_result);
}

#[test]
fn bags_with_other_costs_are_not_equal() {
    let label = |values: Vec<u64>, path: Vec<usize>| Label { values, hidden_values: vec![], path, node_id: 1 };
    let mut one = Bag::new_empty();
    one.add_if_necessary(label(vec![2, 5], vec![0]));
    one.add_if_necessary(label(vec![5, 2], vec![0]));
    let mut other = Bag::new_empty();
    other.add_if_necessary(label(vec![5, 2], vec![7, 8]));
    assert!(!one.same_costs(&other));
    assert!(one.holds_costs_of(&other));
    assert!(!other.holds_costs_of(&one));
    assert!(one != other);
    other.add_if_necessary(label(vec![2, 5], vec![]));
    assert!(one.same_costs(&other));
    assert!(one == other);
    assert!(Bag::new_empty().same_costs(&Bag::new_empty()));
}

struct Surcharge;

impl LabelUpdate for Surcharge {
    fn update(&self, _old_label: &Label<usize>, new_label: &Label<usize>) -> Label<usize> {
        let mut updated = new_label.clone();
        updated.values[1] += new_label.hidden_values[0] / 10;
        updated
    }
}

#[test]
fn a_surcharge_grows_with_the_hidden_cost() {
    let g = graph_of(&[
        (0, 1, vec![1, 0], vec![5]),
        (1, 2, vec![1, 0], vec![5]),
        (2, 3, vec![1, 0], vec![5]),
    ]);
    let mut mlc = MLC::new(&g).unwrap();
    mlc.set_update_label_func(Box::new(Surcharge));
    mlc.set_start_node(0);
    let bags = mlc.run().unwrap();
    assert_eq!(values_at(bags, 1), vec![vec![1, 0]]);
    assert_eq!(values_at(bags, 2), vec![vec![2, 1]]);
    assert_eq!(bags[&3].labels.len(), 1);
    assert_eq!(bags[&3].labels[0].values, vec![3, 2]);
    assert_eq!(bags[&3].labels[0].hidden_values, vec![15]);
}

#[test]
fn an_update_that_changes_nothing_gives_the_bags_of_no_update() {
    let g = graph_of(&[
        (0, 1, vec![2, 5], vec![1]),
        (0, 1, vec![5, 2], vec![1]),
        (1, 2, vec![1, 1], vec![1]),
    ]);
    let mut with = MLC::new(&g).unwrap();
    with.set_update_label_func(Box::new(Unchanged));
    with.set_start_node(0);
    with.run().unwrap();
    let mut without = MLC::new(&g).unwrap();
    without.set_start_node(0);
    without.run().unwrap();
    assert!(with.bags() == without.bags());
    assert_eq!(values_at(with.bags(), 2), vec![vec![3, 6], vec![6, 3]]);
    assert_eq!(with.bags()[&2].labels[0].hidden_values, vec![2]);
}

#[test]
fn what_an_update_gives_is_taken_where_it_fits() {
    let label = |node_id: usize, values: Vec<u64>, hidden_values: Vec<u64>| Label {
        values,
        hidden_values,
        path: vec![0],
        node_id,
    };
    let taken = accept_update(label(4, vec![1, 2], vec![3]), 4, 2, 1).unwrap();
    assert_eq!(taken.values, vec![1, 2]);
    assert_eq!(taken.hidden_values, vec![3]);
    assert_eq!(taken.node_id, 4);
    assert!(matches!(
        accept_update(label(5, vec![1, 2], vec![3]), 4, 2, 1),
        Err(MLCError::InvalidLabelUpdate(4))
    ));
    assert!(matches!(
        accept_update(label(4, vec![1], vec![3]), 4, 2, 1),
        Err(MLCError::InvalidLabelUpdate(4))
    ));
    assert!(matches!(
        accept_update(label(4, vec![1, 2], vec![]), 4, 2, 1),
        Err(MLCError::InvalidLabelUpdate(4))
    ));
}

#[test]
fn expanding_stale_labels_finds_the_same_costs() {
    // the label (5, 5) at node 1 is stale when it is taken: (2, 2) came by
    // node 2
    let edges = [
        (0, 1, vec![5, 5], vec![]),
        (0, 2, vec![1, 1], vec![]),
        (2, 1, vec![1, 1], vec![]),
        (1, 3, vec![1, 4], vec![]),
        (0, 3, vec![9, 0], vec![]),
        (3, 0, vec![0, 0], vec![]),
    ];
    let g = graph_of(&edges);
    let mut skipping = MLC::new(&g).unwrap();
    skipping.set_start_node(0);
    skipping.run().unwrap();
    let mut expanding = MLC::new(&g).unwrap();
    expanding.set_skip_stale(false);
    expanding.set_start_node(0);
    expanding.run().unwrap();
    assert_eq!(skipping.bags().len(), expanding.bags().len());
    assert!(skipping.bags() == expanding.bags());
    assert_eq!(values_at(expanding.bags(), 1), vec![vec![2, 2]]);
    assert_eq!(values_at(expanding.bags(), 3), vec![vec![3, 6], vec![9, 0]]);
}

#[test]
fn a_stale_label_is_expanded_where_that_is_asked_for() {
    let g = graph_of(&[(0, 1, vec![5], vec![]), (0, 2, vec![1], vec![]), (2, 1, vec![1], vec![]), (1, 3, vec![1], vec![])]);
    let stale = || Label { values: vec![5], hidden_values: vec![], path: vec![0], node_id: 1 };
    let mut mlc = MLC::new(&g).unwrap();
    mlc.set_start_node(0);
    mlc.run().unwrap();
    assert_eq!(values_at(mlc.bags(), 3), vec![vec![3]]);
    assert!(mlc.step(stale()).is_ok());
    assert_eq!(mlc.queue_len(), 0);
    mlc.set_skip_stale(false);
    assert!(mlc.step(stale()).is_ok());
    // what it gives at node 3, (6), is covered there, so nothing waits
    assert_eq!(mlc.queue_len(), 0);
    assert_eq!(values_at(mlc.bags(), 3), vec![vec![3]]);
}
