use mlc::bag::{Bag, Label, WeightsTuple};

#[test]
fn test_weakly_dominates() {
    let label1 = Label {
        values: vec![1, 2, 3],
        hidden_values: vec![],
        path: vec![0, 1, 2],
        node_id: 2,
    };
    let label2 = Label {
        values: vec![1, 2, 3],
        hidden_values: vec![],
        path: vec![0, 1, 2],
        node_id: 2,
    };
    let label3 = Label {
        values: vec![2, 3, 4],
        hidden_values: vec![],
        path: vec![0, 1, 2],
        node_id: 2,
    };
    let label4 = Label {
        values: vec![1, 2, 4],
        hidden_values: vec![],
        path: vec![0, 1, 2],
        node_id: 2,
    };
    let label_bug_1 = Label {
        values: vec![1852375, 0],
        hidden_values: vec![],
        path: vec![0],
        node_id: 1,
    };
    let label_bug_2 = Label {
        values: vec![2003938, 0],
        hidden_values: vec![],
        path: vec![0],
        node_id: 1,
    };

    assert!(label1.weakly_dominates(&label2));
    assert!(label2.weakly_dominates(&label1));
    assert!(label1.weakly_dominates(&label3));
    assert!(!label3.weakly_dominates(&label1));
    assert!(label1.weakly_dominates(&label4));
    assert!(!label4.weakly_dominates(&label1));
    assert!(label_bug_1.weakly_dominates(&label_bug_2));
}

#[test]
fn test_bag_add_if_necessary() {
    let mut bag = Bag::new_empty();
    let label1 = Label {
        values: vec![1, 2, 3],
        hidden_values: vec![],
        path: vec![0, 1, 2],
        node_id: 2,
    };
    let label2 = Label {
        values: vec![2, 3, 4],
        hidden_values: vec![],
        path: vec![0, 1, 2],
        node_id: 2,
    };

    assert!(bag.add_if_necessary(label1.clone()));
    assert_eq!(bag.labels.len(), 1);

    assert!(!bag.add_if_necessary(label2.clone()));
    assert_eq!(bag.labels.len(), 1);

    let label3 = Label {
        values: vec![0, 1, 6],
        hidden_values: vec![],
        path: vec![0, 1, 2],
        node_id: 2,
    };
    assert!(bag.add_if_necessary(label3.clone()));
    assert_eq!(bag.labels.len(), 2);

    assert!(bag.content_dominates(&label1));
    assert!(bag.content_dominates(&label2)); // weakly
    assert!(bag.content_dominates(&label3)); // weakly
}

#[test]
fn test_bag_remove_dominated_by() {
    let mut bag = Bag::new_empty();
    let label1 = Label {
        values: vec![1, 2, 5],
        hidden_values: vec![],
        path: vec![0, 1, 2],
        node_id: 2,
    };
    let label2 = Label {
        values: vec![2, 3, 4],
        hidden_values: vec![],
        path: vec![0, 1, 2],
        node_id: 2,
    };
    let label3 = Label {
        values: vec![0, 0, 0],
        hidden_values: vec![],
        path: vec![0, 1, 2],
        node_id: 2,
    };

    bag.labels.push(label1);
    bag.labels.push(label2);
    assert_eq!(bag.labels.len(), 2);

    bag.remove_dominated_by(&label3);
    assert_eq!(bag.labels.len(), 0);
}

#[test]
fn remove_dominated_by_keeps_the_others_in_order() {
    let mut bag = Bag::new_empty();
    for values in [vec![1u64, 9], vec![5, 5], vec![9, 1], vec![6, 6]] {
        bag.labels.push(Label { values, hidden_values: vec![], path: vec![], node_id: 0 });
    }
    let label = Label { values: vec![5, 5], hidden_values: vec![], path: vec![], node_id: 0 };
    bag.remove_dominated_by(&label);
    let left: Vec<Vec<u64>> = bag.labels.iter().map(|l| l.values.clone()).collect();
    assert_eq!(left, vec![vec![1, 9], vec![9, 1]]);
}

#[test]
fn adding_twice_is_adding_once() {
    let mut bag = Bag::new_empty();
    let first = Label { values: vec![4, 4], hidden_values: vec![7], path: vec![1], node_id: 3 };
    let second = Label { values: vec![4, 4], hidden_values: vec![9], path: vec![2], node_id: 3 };
    assert!(bag.add_if_necessary(first));
    assert!(!bag.add_if_necessary(second));
    assert_eq!(bag.labels.len(), 1);
    // the label that came first stays
    assert_eq!(bag.labels[0].hidden_values, vec![7]);
    assert_eq!(bag.labels[0].path, vec![1]);
}

#[test]
fn a_better_label_drives_out_what_it_dominates() {
    let mut bag = Bag::new_empty();
    for values in [vec![3u64, 6], vec![6, 3]] {
        assert!(bag.add_if_necessary(Label {
            values,
            hidden_values: vec![],
            path: vec![],
            node_id: 0,
        }));
    }
    assert!(bag.add_if_necessary(Label {
        values: vec![3, 3],
        hidden_values: vec![],
        path: vec![],
        node_id: 0,
    }));
    assert_eq!(bag.labels.len(), 1);
    assert_eq!(bag.labels[0].values, vec![3, 3]);
}

#[test]
fn new_along_adds_weights_and_keeps_the_path() {
    let label = Label { values: vec![1, 2], hidden_values: vec![3], path: vec![0], node_id: 4 };
    let weight = WeightsTuple { weights: vec![10, 20], hidden_weights: vec![30] };
    let next = label.new_along(&weight, 7, false);
    assert_eq!(next.values, vec![11, 22]);
    assert_eq!(next.hidden_values, vec![33]);
    assert_eq!(next.path, vec![0, 4]);
    assert_eq!(next.node_id, 7);
    let bare = label.new_along(&weight, 7, true);
    assert_eq!(bare.path, Vec::<usize>::new());
    assert_eq!(bare.values, vec![11, 22]);
}

#[test]
fn try_new_along_refuses_a_sum_that_is_too_large() {
    let label = Label { values: vec![u64::MAX, 0], hidden_values: vec![], path: vec![], node_id: 0 };
    let weight = WeightsTuple { weights: vec![1, 1], hidden_weights: vec![] };
    assert!(label.try_new_along(&weight, 1, false).is_none());
    let fine = WeightsTuple { weights: vec![0, 1], hidden_weights: vec![] };
    assert_eq!(label.try_new_along(&fine, 1, false).unwrap().values, vec![u64::MAX, 1]);
}
