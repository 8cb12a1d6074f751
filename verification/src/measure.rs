//! Why the search ends: every label that a bag accepts takes cost vectors out
//! of the finite set of those that the bag does not dominate yet.

use crate::bag::{bag_dominates, bag_with, dominates, lemma_filter_origin, survives, LabelData, NodeId};
use vstd::prelude::*;
use vstd::set_lib::{full_set_properties, lemma_len_subset, lemma_set_subset_finite};

verus! {

/// The bags of all nodes, each as the sequence of what its labels hold.
pub type BagsView = Map<usize, Seq<LabelData<NodeId>>>;

/// All cost vectors with `k` components.
pub open spec fn all_vectors(k: nat) -> Set<Seq<u64>> {
    Set::new(|v: Seq<u64>| v.len() == k)
}

/// The vectors with one component more that begin with `v`.
pub open spec fn longer_by_one(v: Seq<u64>) -> Set<Seq<u64>> {
    Set::<u64>::full().map_by(|x: u64| v.push(x), |t: Seq<u64>| t.last())
}

/// There are finitely many cost vectors with `k` components.
pub proof fn lemma_all_vectors_finite(k: nat)
    ensures
        all_vectors(k).finite(),
    decreases k,
{
    if k == 0 {
        assert(all_vectors(0) =~= set![Seq::<u64>::empty()]) by {
            assert forall|v: Seq<u64>| v.len() == 0 implies v == Seq::<u64>::empty() by {
                assert(v =~= Seq::<u64>::empty());
            }
        }
    } else {
        let shorter = all_vectors((k - 1) as nat);
        lemma_all_vectors_finite((k - 1) as nat);
        let fwd = |v: Seq<u64>| longer_by_one(v);
        let rev = |t: Seq<u64>| t.drop_last();
        assert forall|v: Seq<u64>| shorter.contains(v) implies (#[trigger] fwd(v)).finite() by {
            broadcast use full_set_properties;
            assert(Set::<u64>::full().finite());
            Set::<u64>::full().lemma_map_by_finite(|x: u64| v.push(x), |t: Seq<u64>| t.last());
        }
        shorter.lemma_map_flatten_by_finite(fwd, rev);
        let built = shorter.map_flatten_by(fwd, rev);
        assert forall|t: Seq<u64>| all_vectors(k).contains(t) implies built.contains(t) by {
            assert(t.drop_last().push(t.last()) =~= t);
            assert(Set::<u64>::full().contains(t.last()));
        }
        assert(all_vectors(k).subset_of(built));
        lemma_set_subset_finite(built, all_vectors(k));
    }
}

/// Every label of `bag` has `k` visible costs.
pub open spec fn uniform(bag: Seq<LabelData<NodeId>>, k: nat) -> bool {
    forall|i: int| 0 <= i < bag.len() ==> (#[trigger] bag[i]).values.len() == k
}

/// The vectors with `k` components that no label of `bag` dominates.
pub open spec fn uncovered(bag: Seq<LabelData<NodeId>>, k: nat) -> Set<Seq<u64>> {
    Set::new(|v: Seq<u64>| v.len() == k && !bag_dominates(bag, v))
}

/// There are finitely many vectors that a bag does not dominate.
pub proof fn lemma_uncovered_finite(bag: Seq<LabelData<NodeId>>, k: nat)
    ensures
        uncovered(bag, k).finite(),
{
    lemma_all_vectors_finite(k);
    assert(uncovered(bag, k).subset_of(all_vectors(k)));
    lemma_set_subset_finite(all_vectors(k), uncovered(bag, k));
}

/// Among vectors of one length, dominance is transitive.
pub proof fn lemma_dominates_trans(a: Seq<u64>, b: Seq<u64>, c: Seq<u64>)
    requires
        a.len() == b.len(),
        b.len() == c.len(),
        dominates(a, b),
        dominates(b, c),
    ensures
        dominates(a, c),
{
}

/// What a bag dominates, it still dominates after a label was offered to it;
/// and then it dominates that label, too.
pub proof fn lemma_bag_with_dominates(bag: Seq<LabelData<NodeId>>, label: LabelData<NodeId>, k: nat)
    requires
        uniform(bag, k),
        label.values.len() == k,
    ensures
        uniform(bag_with(bag, label), k),
        bag_dominates(bag_with(bag, label), label.values),
        forall|v: Seq<u64>|
            v.len() == k && bag_dominates(bag, v) ==> #[trigger] bag_dominates(
                bag_with(bag, label),
                v,
            ),
{
    let after = bag_with(bag, label);
    if bag_dominates(bag, label.values) {
    } else {
        let pred = survives::<NodeId>(label.values);
        let kept = bag.filter(pred);
        lemma_filter_origin(bag, pred);
        assert(after[after.len() - 1] == label);
        assert(dominates(after[after.len() - 1].values, label.values));
        assert forall|i: int| 0 <= i < after.len() implies (#[trigger] after[i]).values.len()
            == k by {
            if i < kept.len() {
                let a = choose|a: int| 0 <= a < bag.len() && bag[a] == kept[i];
            }
        }
        assert forall|v: Seq<u64>| v.len() == k && bag_dominates(bag, v) implies #[trigger] bag_dominates(
            after,
            v,
        ) by {
            let i = choose|i: int| 0 <= i < bag.len() && dominates(#[trigger] bag[i].values, v);
            if pred(bag[i]) {
                assert(kept.contains(bag[i]));
                let j = choose|j: int| 0 <= j < kept.len() && kept[j] == bag[i];
                assert(after[j] == bag[i]);
                assert(dominates(after[j].values, v));
            } else {
                lemma_dominates_trans(label.values, bag[i].values, v);
                assert(dominates(after[after.len() - 1].values, v));
            }
        }
    }
}

/// A label that a bag accepts leaves fewer vectors that the bag does not
/// dominate; one that it refuses leaves as many.
pub proof fn lemma_uncovered_shrinks(bag: Seq<LabelData<NodeId>>, label: LabelData<NodeId>, k: nat)
    requires
        uniform(bag, k),
        label.values.len() == k,
    ensures
        uncovered(bag_with(bag, label), k).len() <= uncovered(bag, k).len(),
        !bag_dominates(bag, label.values) ==> uncovered(bag_with(bag, label), k).len() < uncovered(
            bag,
            k,
        ).len(),
{
    let before = uncovered(bag, k);
    let after = uncovered(bag_with(bag, label), k);
    lemma_bag_with_dominates(bag, label, k);
    lemma_uncovered_finite(bag, k);
    assert(after.subset_of(before));
    lemma_len_subset(after, before);
    if !bag_dominates(bag, label.values) {
        assert(before.contains(label.values));
        assert(!after.contains(label.values));
        after.lemma_subset_not_in_lt(before, label.values);
    }
}

/// The bag at node `n`, which is empty where the node has none.
pub open spec fn bag_at(bags: BagsView, n: int) -> Seq<LabelData<NodeId>> {
    if 0 <= n <= usize::MAX && bags.contains_key(n as usize) {
        bags[n as usize]
    } else {
        Seq::empty()
    }
}

/// The number of vectors that are not dominated yet, over the first `nodes`
/// nodes.
pub open spec fn open_points(bags: BagsView, k: nat, nodes: nat) -> nat
    decreases nodes,
{
    if nodes == 0 {
        0
    } else {
        open_points(bags, k, (nodes - 1) as nat) + uncovered(bag_at(bags, nodes - 1), k).len()
    }
}

/// Where one bag changes, the number of open points changes as the number of
/// that bag does.
pub proof fn lemma_open_points_change(before: BagsView, after: BagsView, k: nat, nodes: nat, t: int)
    requires
        forall|n: int| n != t ==> bag_at(before, n) == bag_at(after, n),
    ensures
        !(0 <= t < nodes) ==> open_points(after, k, nodes) == open_points(before, k, nodes),
        0 <= t < nodes ==> open_points(after, k, nodes) + uncovered(bag_at(before, t), k).len()
            == open_points(before, k, nodes) + uncovered(bag_at(after, t), k).len(),
    decreases nodes,
{
    if nodes > 0 {
        lemma_open_points_change(before, after, k, (nodes - 1) as nat, t);
    }
}

} // verus!
