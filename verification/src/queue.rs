//! The queue of labels that wait to be expanded: a binary heap that hands out
//! a label whose cost vector comes first in lexicographic order.

use crate::bag::{Label, LabelData, NodeId};
use crate::order::{compare_values, lemma_lex_le_trans, lemma_lex_total, lex_le, Rank};
use vstd::multiset::Multiset;
use vstd::prelude::*;

verus! {

/// The views of the labels in `items`, place by place.
pub open spec fn views(items: Seq<Label<NodeId>>) -> Seq<LabelData<NodeId>> {
    Seq::new(items.len(), |i: int| items[i]@)
}

/// Every place but the first holds a label that does not come before the one
/// at its parent place.
pub open spec fn heap_ordered(items: Seq<LabelData<NodeId>>) -> bool {
    forall|i: int| 0 < i < items.len() ==> lex_le(items[(i - 1) / 2].values, #[trigger] items[i].values)
}

/// As `heap_ordered`, but nothing is asked of place `hole` and its parent.
/// The children of `hole` do not come before its parent.
pub open spec fn heap_ordered_but_up(items: Seq<LabelData<NodeId>>, hole: int) -> bool {
    &&& forall|i: int|
        0 < i < items.len() && i != hole ==> lex_le(
            items[(i - 1) / 2].values,
            #[trigger] items[i].values,
        )
    &&& forall|i: int|
        0 < i < items.len() && 0 < hole && (i - 1) / 2 == hole ==> lex_le(
            items[(hole - 1) / 2].values,
            #[trigger] items[i].values,
        )
}

/// As `heap_ordered`, but nothing is asked of the children of place `hole`.
/// They do not come before the parent of `hole`.
pub open spec fn heap_ordered_but_down(items: Seq<LabelData<NodeId>>, hole: int) -> bool {
    &&& forall|i: int|
        0 < i < items.len() && (i - 1) / 2 != hole ==> lex_le(
            items[(i - 1) / 2].values,
            #[trigger] items[i].values,
        )
    &&& forall|i: int|
        0 < i < items.len() && 0 < hole && (i - 1) / 2 == hole ==> lex_le(
            items[(hole - 1) / 2].values,
            #[trigger] items[i].values,
        )
}

/// In a heap no label comes before the one at the first place.
pub proof fn lemma_first_is_least(items: Seq<LabelData<NodeId>>, i: int)
    requires
        heap_ordered(items),
        0 <= i < items.len(),
    ensures
        lex_le(items[0].values, items[i].values),
    decreases i,
{
    if i > 0 {
        lemma_first_is_least(items, (i - 1) / 2);
        lemma_lex_le_trans(items[0].values, items[(i - 1) / 2].values, items[i].values);
    }
}

/// A label without costs and without a path, at node 0.
fn blank() -> (r: Label<NodeId>)
    ensures
        r@.values == Seq::<u64>::empty(),
        r@.hidden_values == Seq::<u64>::empty(),
        r@.path == Seq::<NodeId>::empty(),
        r@.node_id == 0,
{
    Label { values: Vec::new(), hidden_values: Vec::new(), path: Vec::new(), node_id: 0 }
}

/// Exchanges the labels at the places `i` and `j`.
fn exchange(items: &mut Vec<Label<NodeId>>, i: usize, j: usize)
    requires
        i < old(items).len(),
        j < old(items).len(),
    ensures
        final(items)@ == old(items)@.update(i as int, old(items)@[j as int]).update(
            j as int,
            old(items)@[i as int],
        ),
{
    if i == j {
        assert(items@ =~= old(items)@.update(i as int, old(items)@[j as int]).update(
            j as int,
            old(items)@[i as int],
        ));
        return ;
    }
    let mut held = blank();
    core::mem::swap(&mut held, &mut items[i]);
    core::mem::swap(&mut held, &mut items[j]);
    core::mem::swap(&mut held, &mut items[i]);
    assert(items@ =~= old(items)@.update(i as int, old(items)@[j as int]).update(
        j as int,
        old(items)@[i as int],
    ));
}

/// Exchanging two places keeps what a sequence holds.
proof fn lemma_exchange_keeps(items: Seq<Label<NodeId>>, i: int, j: int)
    requires
        0 <= i < items.len(),
        0 <= j < items.len(),
    ensures
        views(items.update(i, items[j]).update(j, items[i])).to_multiset() == views(
            items,
        ).to_multiset(),
        views(items.update(i, items[j]).update(j, items[i])) == views(items).update(
            i,
            items[j]@,
        ).update(j, items[i]@),
{
    let v = views(items);
    let w = v.update(i, v[j]).update(j, v[i]);
    assert(views(items.update(i, items[j]).update(j, items[i])) =~= w);
    vstd::seq_lib::to_multiset_update(v, i, v[j]);
    vstd::seq_lib::to_multiset_update(v.update(i, v[j]), j, v[i]);
    vstd::seq_lib::to_multiset_contains(v, v[i]);
    vstd::seq_lib::to_multiset_contains(v, v[j]);
    assert(w.to_multiset() =~= v.to_multiset());
}

/// The labels that wait to be expanded.
#[derive(Debug)]
pub struct LabelQueue {
    items: Vec<Label<NodeId>>,
}

impl View for LabelQueue {
    type V = Multiset<LabelData<NodeId>>;

    closed spec fn view(&self) -> Multiset<LabelData<NodeId>> {
        views(self.items@).to_multiset()
    }
}

impl LabelQueue {
    /// What the queue must be: a heap.
    pub closed spec fn wf(&self) -> bool {
        heap_ordered(views(self.items@))
    }

    /// The queue without labels.
    pub fn new() -> (r: LabelQueue)
        ensures
            r.wf(),
            r@ == Multiset::<LabelData<NodeId>>::empty(),
    {
        let r = LabelQueue { items: Vec::new() };
        proof {
            assert(views(r.items@) =~= Seq::empty());
            broadcast use vstd::seq_lib::group_to_multiset_ensures;

        }
        r
    }

    /// The number of labels in the queue.
    pub fn len(&self) -> (n: usize)
        ensures
            n == self@.len(),
    {
        proof {
            vstd::seq_lib::to_multiset_len(views(self.items@));
        }
        self.items.len()
    }

    /// Whether the queue holds no label.
    pub fn is_empty(&self) -> (r: bool)
        ensures
            r == (self@.len() == 0),
    {
        self.len() == 0
    }

    /// Puts `label` into the queue.
    pub fn push(&mut self, label: Label<NodeId>)
        requires
            old(self).wf(),
        ensures
            final(self).wf(),
            final(self)@ == old(self)@.insert(label@),
    {
        let ghost before = views(self.items@);
        self.items.push(label);
        proof {
            assert(views(self.items@) =~= before.push(label@));
            vstd::seq_lib::to_multiset_build(before, label@);
        }
        let ghost content = views(self.items@).to_multiset();
        let mut i: usize = self.items.len() - 1;
        while i > 0
            invariant
                i < self.items.len(),
                heap_ordered_but_up(views(self.items@), i as int),
                views(self.items@).to_multiset() == content,
                content == old(self)@.insert(label@),
            decreases i,
        {
            let parent: usize = (i - 1) / 2;
            match compare_values(&self.items[i].values, &self.items[parent].values) {
                Rank::Before => {
                    let ghost old_items = self.items@;
                    exchange(&mut self.items, i, parent);
                    proof {
                        lemma_exchange_keeps(old_items, i as int, parent as int);
                        let o = views(old_items);
                        let n = views(self.items@);
                        assert(lex_le(o[i as int].values, o[parent as int].values));
                        assert forall|k: int|
                            0 < k < n.len() && k != parent implies lex_le(
                            n[(k - 1) / 2].values,
                            #[trigger] n[k].values,
                        ) by {
                            if k == i {
                            } else if (k - 1) / 2 == i {
                                assert(lex_le(o[parent as int].values, o[k].values));
                            } else if (k - 1) / 2 == parent {
                                assert(lex_le(o[parent as int].values, o[k].values));
                                lemma_lex_le_trans(
                                    o[i as int].values,
                                    o[parent as int].values,
                                    o[k].values,
                                );
                            } else {
                                assert(lex_le(o[(k - 1) / 2].values, o[k].values));
                            }
                        }
                        assert forall|k: int|
                            0 < k < n.len() && 0 < parent && (k - 1) / 2 == parent implies lex_le(
                            n[(parent - 1) / 2].values,
                            #[trigger] n[k].values,
                        ) by {
                            assert(lex_le(o[(parent - 1) / 2].values, o[parent as int].values));
                            if k == i {
                            } else {
                                assert(lex_le(o[parent as int].values, o[k].values));
                                lemma_lex_le_trans(
                                    o[(parent - 1) / 2].values,
                                    o[parent as int].values,
                                    o[k].values,
                                );
                            }
                        }
                    }
                    i = parent;
                },
                _ => {
                    proof {
                        let n = views(self.items@);
                        lemma_lex_total(n[i as int].values, n[parent as int].values);
                        assert(lex_le(n[parent as int].values, n[i as int].values));
                    }
                    return ;
                },
            }
        }
    }

    /// Takes a label out whose cost vector no other in the queue comes
    /// before; `None` where the queue is empty.
    pub fn pop(&mut self) -> (r: Option<Label<NodeId>>)
        requires
            old(self).wf(),
        ensures
            final(self).wf(),
            match r {
                Some(label) => {
                    &&& old(self)@ == final(self)@.insert(label@)
                    &&& forall|other: LabelData<NodeId>|
                        old(self)@.contains(other) ==> lex_le(label@.values, other.values)
                },
                None => old(self)@.len() == 0 && final(self)@ == old(self)@,
            },
    {
        let n: usize = self.items.len();
        if n == 0 {
            proof {
                vstd::seq_lib::to_multiset_len(views(self.items@));
            }
            return None;
        }
        let ghost start = views(self.items@);
        proof {
            assert forall|other: LabelData<NodeId>|
                start.to_multiset().contains(other) implies lex_le(
                start[0].values,
                other.values,
            ) by {
                vstd::seq_lib::to_multiset_contains(start, other);
                let k = choose|k: int| 0 <= k < start.len() && start[k] == other;
                lemma_first_is_least(start, k);
            }
        }
        let ghost old_items = self.items@;
        exchange(&mut self.items, 0, n - 1);
        proof {
            lemma_exchange_keeps(old_items, 0, n - 1);
        }
        let ghost swapped = views(self.items@);
        let least = self.items.pop().unwrap();
        proof {
            assert(least@ == start[0]);
            assert(views(self.items@) =~= swapped.drop_last());
            assert(swapped =~= views(self.items@).push(least@));
            vstd::seq_lib::to_multiset_build(views(self.items@), least@);
        }
        let ghost content = views(self.items@).to_multiset();
        let m: usize = self.items.len();
        proof {
            let v = views(self.items@);
            assert forall|i: int| 0 < i < v.len() && (i - 1) / 2 != 0 implies lex_le(
                v[(i - 1) / 2].values,
                #[trigger] v[i].values,
            ) by {
                assert(v[i] == start[i]);
                assert(v[(i - 1) / 2] == start[(i - 1) / 2]);
            }
        }
        let mut i: usize = 0;
        while i < m / 2
            invariant
                m == self.items.len(),
                i <= m,
                heap_ordered_but_down(views(self.items@), i as int),
                views(self.items@).to_multiset() == content,
                old(self)@ == content.insert(least@),
                forall|other: LabelData<NodeId>|
                    old(self)@.contains(other) ==> lex_le(least@.values, other.values),
            decreases m - i,
        {
            let left: usize = 2 * i + 1;
            let right: usize = left + 1;
            let mut child: usize = left;
            if right < m {
                match compare_values(&self.items[right].values, &self.items[left].values) {
                    Rank::Before => {
                        child = right;
                    },
                    _ => {},
                }
            }
            proof {
                let v = views(self.items@);
                if right < m {
                    lemma_lex_total(v[right as int].values, v[left as int].values);
                    assert(lex_le(v[child as int].values, v[left as int].values));
                    assert(lex_le(v[child as int].values, v[right as int].values));
                }
            }
            match compare_values(&self.items[child].values, &self.items[i].values) {
                Rank::Before => {
                    let ghost old_items = self.items@;
                    exchange(&mut self.items, i, child);
                    proof {
                        lemma_exchange_keeps(old_items, i as int, child as int);
                        let o = views(old_items);
                        let v = views(self.items@);
                        assert forall|k: int|
                            0 < k < v.len() && (k - 1) / 2 != child implies lex_le(
                            v[(k - 1) / 2].values,
                            #[trigger] v[k].values,
                        ) by {
                            if k == child {
                            } else if (k - 1) / 2 == i {
                                assert(k == left || k == right);
                            } else if k == i {
                                assert(lex_le(o[(i - 1) / 2].values, o[child as int].values));
                            } else {
                                assert(lex_le(o[(k - 1) / 2].values, o[k].values));
                            }
                        }
                        assert forall|k: int|
                            0 < k < v.len() && 0 < child && (k - 1) / 2 == child implies lex_le(
                            v[(child - 1) / 2].values,
                            #[trigger] v[k].values,
                        ) by {
                            assert(lex_le(o[child as int].values, o[k].values));
                        }
                    }
                    i = child;
                },
                _ => {
                    proof {
                        let v = views(self.items@);
                        lemma_lex_total(v[child as int].values, v[i as int].values);
                        assert forall|k: int| 0 < k < v.len() implies lex_le(
                            v[(k - 1) / 2].values,
                            #[trigger] v[k].values,
                        ) by {
                            if (k - 1) / 2 == i {
                                assert(k == left || k == right);
                                lemma_lex_le_trans(
                                    v[i as int].values,
                                    v[child as int].values,
                                    v[k].values,
                                );
                            }
                        }
                    }
                    return Some(least);
                },
            }
        }
        proof {
            let v = views(self.items@);
            assert forall|k: int| 0 < k < v.len() implies lex_le(
                v[(k - 1) / 2].values,
                #[trigger] v[k].values,
            ) by {
                if (k - 1) / 2 == i {
                    assert(false);
                }
            }
        }
        Some(least)
    }
}

} // verus!
