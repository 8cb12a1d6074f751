use mlc::bag::Label;
use mlc::order::{compare_values, Rank};
use mlc::queue::LabelQueue;
use std::cmp::Ordering;

fn label(values: Vec<u64>, node_id: usize) -> Label<usize> {
    Label { values, hidden_values: vec![], path: vec![], node_id }
}

#[test]
fn cost_vectors_are_compared_place_by_place() {
    assert_eq!(compare_values(&vec![1, 2, 3], &vec![1, 2, 3]), Rank::Same);
    assert_eq!(compare_values(&vec![1, 2, 3], &vec![1, 3, 0]), Rank::Before);
    assert_eq!(compare_values(&vec![2, 0], &vec![1, 9]), Rank::After);
    assert_eq!(compare_values(&vec![1], &vec![1, 0]), Rank::Before);
    assert_eq!(compare_values(&vec![1, 0], &vec![1]), Rank::After);
    assert_eq!(compare_values(&vec![], &vec![]), Rank::Same);
    for (a, b) in [(vec![1u64, 2], vec![1u64, 3]), (vec![5], vec![5]), (vec![7, 1], vec![7])] {
        let std_order = a.cmp(&b);
        let ours = match compare_values(&a, &b) {
            Rank::Before => Ordering::Less,
            Rank::Same => Ordering::Equal,
            Rank::After => Ordering::Greater,
        };
        assert_eq!(ours, std_order);
    }
}

#[test]
fn the_label_with_the_smaller_costs_is_the_greater_one() {
    let a = label(vec![1, 5], 0);
    let b = label(vec![2, 0], 1);
    assert_eq!(a.cmp(&b), Ordering::Greater);
    assert_eq!(b.cmp(&a), Ordering::Less);
    assert_eq!(a.partial_cmp(&b), Some(Ordering::Greater));
    assert!(a > b);
    assert!(b < a);
    let c = Label { values: vec![1, 5], hidden_values: vec![9], path: vec![3], node_id: 8 };
    assert_eq!(a.cmp(&c), Ordering::Equal);
    assert!(a == c);
    assert!(a != b);
}

#[test]
fn the_queue_hands_labels_out_in_lexicographic_order() {
    let mut queue = LabelQueue::new();
    assert!(queue.is_empty());
    assert!(queue.pop().is_none());
    let all = vec![
        vec![5u64, 1],
        vec![1, 9],
        vec![3, 3],
        vec![1, 2],
        vec![4, 0],
        vec![1, 2],
        vec![0, 7],
        vec![9, 9],
        vec![2, 2],
    ];
    for (i, values) in all.iter().enumerate() {
        queue.push(label(values.clone(), i));
        assert_eq!(queue.len(), i + 1);
    }
    let mut popped = Vec::new();
    while let Some(l) = queue.pop() {
        popped.push(l.values);
    }
    let mut sorted = all.clone();
    sorted.sort();
    assert_eq!(popped, sorted);
    assert!(queue.is_empty());
}

#[test]
fn a_search_takes_labels_in_lexicographic_order() {
    // the order in which a search expands labels shows in the paths: with
    // edges 0->1 (5), 0->2 (1), 2->1 (1) the label (2) reaches node 1 before
    // the label (5) is expanded there, so that node 3 is reached with (3) only
    let g = mlc::graph::MLCGraph::from_edges(
        [(0usize, 1usize, 5u64), (0, 2, 1), (2, 1, 1), (1, 3, 1)].iter().map(|(u, v, w)| {
            (
                petgraph::graph::NodeIndex::new(*u),
                petgraph::graph::NodeIndex::new(*v),
                mlc::bag::WeightsTuple { weights: vec![*w], hidden_weights: vec![] },
            )
        }),
    );
    let mut search = mlc::mlc::MLC::new(&g).unwrap();
    search.set_start_node(0);
    search.start().unwrap();
    let mut steps: usize = 0;
    while search.advance().unwrap() {
        steps += 1;
    }
    // start, node 2, node 1 with (2), node 3 with (3), and the stale (5)
    assert_eq!(steps, 5);
    assert_eq!(search.bags()[&3].labels.len(), 1);
    assert_eq!(search.bags()[&3].labels[0].values, vec![3]);
    assert_eq!(search.bags()[&3].labels[0].path, vec![0, 0, 2, 1]);
}
