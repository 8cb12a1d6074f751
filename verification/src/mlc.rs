//! The multi-label-correcting search: from the start labels it finds, for
//! every node, the bag of cost vectors that no path to the node improves on.

use crate::bag::{
    bag_dominates, bag_with, extended, extension, fits, is_antichain, sum_along, Bag, Label,
    LabelData, NodeId,
};
use crate::graph::{
    edge_count, edge_endpoints, edge_hidden_weights, edge_source, edge_target, edge_weight,
    edge_weights, ends_below, graph_edges, graph_nodes, is_edge, node_count, node_tags, out_edges,
    Category, MLCGraph,
};
use crate::limits::{
    best_time, covers, exceeded, frontier_with, lemma_best_time, lemma_frontier_with_covers, Limit,
    Limits,
};
use crate::measure::{
    bag_at, lemma_open_points_change, lemma_uncovered_shrinks, open_points, uniform, BagsView,
};
use crate::node_map::{id_of, lists, node_ids, NodeMap};
use crate::order::{compare_values, lemma_lex_le_trans, lemma_sum_lex_le, lex_le, Rank};
use crate::paths::{
    all_closed, bag_covers, closed, continues, costs_of, covers_more, faithful, grown_from, is_result,
    lemma_bag_with_covers, lemma_closed_stays, lemma_grown_is_faithful,
    lemma_grown_is_sound, lemma_origins_are_faithful, lemma_seeds_are_sound,
    lemma_settled_without_waiting, origins, pending, seeds_of, settled, sound, unbounded, walked,
};
use crate::maps::keys_of;
use crate::queue::LabelQueue;
use crate::store::{format_node_map, node_map_header, pair_lines};
use crate::translate::{bags_named, bags_nameless};
use std::collections::HashMap;
use vstd::multiset::Multiset;
use vstd::prelude::*;

verus! {

/// The bag of every node that was reached.
pub type Bags<T> = HashMap<T, Bag<T>>;

/// Why a search could not be set up or run.
#[derive(Debug)]
pub enum MLCError {
    /// The graph has no edge.
    GraphHasNoEdges,
    /// An edge has another number of weights, or of hidden weights, than the
    /// first edge.
    InconsistentEdgeWeights,
    /// The start node's name is not in the node map.
    StartNodeNotFound(String),
    /// A name was given, but no node map.
    NodeMapNotSet,
    /// A label waits at a node that has no bag.
    UnknownNodeId(usize),
    /// The search was run without a label to start from.
    EmptyStartingQueue,
    /// Limits are switched on, but no category holds a pair.
    LimitsUninitialized,
    /// A cost of a label that leaves the given node is too large for a `u64`.
    WeightOverflow(usize),
    /// The label update gave a label for the given node that is at another
    /// node, or has another number of costs.
    InvalidLabelUpdate(usize),
}

/// A rewrite of the label that crossing an edge gave, for costs that are not
/// sums. It is handed the label that was extended and the extended label, and
/// gives the label to go on with: one at the same node, with as many costs.
pub trait LabelUpdate {
    /// The label that `update` gives for the label that was extended and the
    /// extended label. Unless an implementation says otherwise, it is the
    /// extended label as it is.
    open spec fn updated(
        &self,
        old_label: LabelData<NodeId>,
        new_label: LabelData<NodeId>,
    ) -> LabelData<NodeId> {
        new_label
    }

    fn update(&self, old_label: &Label<NodeId>, new_label: &Label<NodeId>) -> (r: Label<NodeId>)
        ensures
            r@ == self.updated(old_label@, new_label@),
    ;
}

/// The label update that changes nothing: it gives the extended label as it
/// is.
pub struct Unchanged;

impl LabelUpdate for Unchanged {
    fn update(&self, old_label: &Label<NodeId>, new_label: &Label<NodeId>) -> (r: Label<NodeId>) {
        new_label.clone()
    }
}

/// The option that holds `x`. Made by a call, the option holds a label
/// update as it was handed in.
fn filled<T>(x: T) -> (r: Option<T>)
    ensures
        r == Some(x),
{
    Some(x)
}

/// The label to go on with, for the label `l` that was extended and the
/// extended label `x`: what the label update gives, and `x` where none is set.
pub open spec fn rewrite(
    hook: Option<Box<dyn LabelUpdate>>,
    l: LabelData<NodeId>,
    x: LabelData<NodeId>,
) -> LabelData<NodeId> {
    match hook {
        Some(f) => f.updated(l, x),
        None => x,
    }
}

/// No label update is set, or one that gives every extended label as it is.
pub open spec fn plain_hook(hook: Option<Box<dyn LabelUpdate>>) -> bool {
    forall|l: LabelData<NodeId>, x: LabelData<NodeId>| #[trigger] rewrite(hook, l, x) == x
}

/// The label that `l` gives along edge `e`: extended by the weights of the
/// edge, and then rewritten.
pub open spec fn along(
    g: MLCGraph,
    hook: Option<Box<dyn LabelUpdate>>,
    off: bool,
    l: LabelData<NodeId>,
    e: int,
) -> LabelData<NodeId> {
    rewrite(
        hook,
        l,
        extended(
            l,
            edge_weights(g, e),
            edge_hidden_weights(g, e),
            edge_target(g, e) as usize,
            off,
        ),
    )
}

/// Takes what a label update gave for an edge to `target`: the label is
/// accepted where it is at `target` and has `k` costs and `m` hidden costs.
pub fn accept_update(updated: Label<NodeId>, target: NodeId, k: usize, m: usize) -> (r: Result<
    Label<NodeId>,
    MLCError,
>)
    ensures
        r is Ok <==> updated@.node_id == target && label_fits(updated@, k as nat, m as nat),
        r is Ok ==> r->Ok_0@ == updated@,
        match r {
            Ok(_) => true,
            Err(MLCError::InvalidLabelUpdate(n)) => n == target,
            Err(_) => false,
        },
{
    if updated.node_id == target && updated.values.len() == k && updated.hidden_values.len() == m {
        Ok(updated)
    } else {
        Err(MLCError::InvalidLabelUpdate(target))
    }
}

/// The views of the bags in `m`.
pub open spec fn bags_view(m: Map<usize, Bag<NodeId>>) -> BagsView {
    m.map_values(|b: Bag<NodeId>| b@)
}

/// Every edge of `g` has `k` visible and `m` hidden weights.
pub open spec fn edges_uniform(g: MLCGraph, k: nat, m: nat) -> bool {
    forall|e: int|
        is_edge(g, e) ==> (#[trigger] edge_weights(g, e)).len() == k && edge_hidden_weights(
            g,
            e,
        ).len() == m
}

/// `c` is a category tag of a node of `g`.
pub open spec fn is_tag(g: MLCGraph, c: Category) -> bool {
    exists|n: int, i: int|
        0 <= n < graph_nodes(g).len() && 0 <= i < graph_nodes(g)[n].len() && #[trigger] graph_nodes(
            g,
        )[n][i] == c
}

/// Edge `f` of `g` has `k` weights and `m` hidden weights.
pub open spec fn edge_has(g: MLCGraph, f: int, k: nat, m: nat) -> bool {
    edge_weights(g, f).len() == k && edge_hidden_weights(g, f).len() == m
}

/// The edges of `g` before edge `e` have `k` weights and `m` hidden weights.
pub open spec fn uniform_below(g: MLCGraph, e: int, k: nat, m: nat) -> bool {
    forall|f: int| 0 <= f < e ==> #[trigger] edge_has(g, f, k, m)
}

/// With one edge more that has `k` weights and `m` hidden weights.
pub proof fn lemma_uniform_grows(g: MLCGraph, e: int, k: nat, m: nat)
    requires
        uniform_below(g, e, k, m),
        edge_has(g, e, k, m),
    ensures
        uniform_below(g, e + 1, k, m),
{
    assert forall|f: int| 0 <= f < e + 1 implies #[trigger] edge_has(g, f, k, m) by {
        if f < e {
        } else {
            assert(f == e);
        }
    }
}

/// Where all edges before the end have `k` weights and `m` hidden weights,
/// the edges are uniform.
pub proof fn lemma_uniform_all(g: MLCGraph, k: nat, m: nat)
    requires
        uniform_below(g, graph_edges(g).len() as int, k, m),
    ensures
        edges_uniform(g, k, m),
{
    assert forall|e: int| is_edge(g, e) implies (#[trigger] edge_weights(g, e)).len() == k
        && edge_hidden_weights(g, e).len() == m by {
        assert(edge_has(g, e, k, m));
    }
}

/// Every category tag of a node of `g` is a category of `frontiers`.
pub open spec fn tags_known(g: MLCGraph, frontiers: Map<Category, Seq<Limit>>) -> bool {
    forall|n: int, i: int|
        0 <= n < graph_nodes(g).len() && 0 <= i < graph_nodes(g)[n].len()
            ==> frontiers.contains_key(#[trigger] graph_nodes(g)[n][i])
}

/// The label has `k` visible and `m` hidden costs.
pub open spec fn label_fits(l: LabelData<NodeId>, k: nat, m: nat) -> bool {
    l.values.len() == k && l.hidden_values.len() == m
}

/// Every bag is an antichain of labels at the bag's node, each with `k`
/// visible and `m` hidden costs.
pub open spec fn bags_ok(bags: BagsView, k: nat, m: nat) -> bool {
    forall|n: usize| #[trigger]
        bags.contains_key(n) ==> {
            &&& is_antichain(bags[n])
            &&& forall|i: int|
                0 <= i < bags[n].len() ==> (#[trigger] bags[n][i]).node_id == n && label_fits(
                    bags[n][i],
                    k,
                    m,
                )
        }
}

/// Every label that waits has `k` visible and `m` hidden costs.
pub open spec fn queue_ok(waiting: Multiset<LabelData<NodeId>>, k: nat, m: nat) -> bool {
    forall|l: LabelData<NodeId>| #[trigger] waiting.contains(l) ==> label_fits(l, k, m)
}

/// Every label that waits at a node without a bag waited there in `before`
/// already.
pub open spec fn homeless_before(
    before: Multiset<LabelData<NodeId>>,
    waiting: Multiset<LabelData<NodeId>>,
    bags: BagsView,
) -> bool {
    forall|l: LabelData<NodeId>| #[trigger]
        waiting.contains(l) ==> bags.contains_key(l.node_id) || before.contains(l)
}

/// The nodes that have a bag in `before` have one in `after`.
pub open spec fn keeps_nodes(before: BagsView, after: BagsView) -> bool {
    forall|n: usize| #[trigger] before.contains_key(n) ==> after.contains_key(n)
}

/// The label at `node` from which a search starts: its visible costs are
/// `values`, its hidden costs are `m` zeros, and its path is the node itself,
/// unless paths are not kept.
pub open spec fn start_label(node: NodeId, values: Seq<u64>, m: nat, disable_paths: bool) -> LabelData<
    NodeId,
> {
    LabelData {
        values,
        hidden_values: Seq::new(m, |i: int| 0u64),
        path: if disable_paths {
            Seq::empty()
        } else {
            seq![node]
        },
        node_id: node,
    }
}

/// The frontiers after the pair (`cost`, `time`) was offered to the category
/// of every tag in `tags`, one tag after the other.
pub open spec fn with_limits(
    frontiers: Map<Category, Seq<Limit>>,
    tags: Seq<Category>,
    cost: u64,
    time: u64,
) -> Map<Category, Seq<Limit>>
    decreases tags.len(),
{
    if tags.len() == 0 {
        frontiers
    } else {
        let before = with_limits(frontiers, tags.drop_last(), cost, time);
        before.insert(tags.last(), frontier_with(before[tags.last()], cost, time))
    }
}

/// Offering a pair to categories that are there leaves the categories that
/// were there.
pub proof fn lemma_with_limits_dom(
    frontiers: Map<Category, Seq<Limit>>,
    tags: Seq<Category>,
    cost: u64,
    time: u64,
)
    requires
        forall|i: int| 0 <= i < tags.len() ==> frontiers.contains_key(#[trigger] tags[i]),
    ensures
        with_limits(frontiers, tags, cost, time).dom() == frontiers.dom(),
    decreases tags.len(),
{
    if tags.len() > 0 {
        let front = tags.drop_last();
        assert forall|i: int| 0 <= i < front.len() implies frontiers.contains_key(
            #[trigger] front[i],
        ) by {
            assert(front[i] == tags[i]);
        }
        lemma_with_limits_dom(frontiers, front, cost, time);
        let before = with_limits(frontiers, front, cost, time);
        assert(frontiers.contains_key(tags[tags.len() - 1]));
        assert(before.insert(tags.last(), frontier_with(before[tags.last()], cost, time)).dom()
            =~= frontiers.dom());
    }
}

/// Label `i` of the bag at `node` has two costs or more, and offers a pair
/// that covers (`x`, `y`) to category `c`, which is a tag of `node`.
pub open spec fn offers(g: MLCGraph, bags: BagsView, node: usize, i: int, c: Category, x: u64, y: u64) -> bool {
    &&& bags.contains_key(node)
    &&& 0 <= i < bags[node].len()
    &&& node < graph_nodes(g).len()
    &&& graph_nodes(g)[node as int].contains(c)
    &&& bags[node][i].values.len() >= 2
    &&& bags[node][i].values[1] <= x
    &&& bags[node][i].values[0] <= y
}

/// Some label of `bags` offers a pair that covers (`x`, `y`) to category `c`.
pub open spec fn offered(g: MLCGraph, bags: BagsView, c: Category, x: u64, y: u64) -> bool {
    exists|node: usize, i: int| offers(g, bags, node, i, c, x, y)
}

/// What the frontier of a category covers after a pair was offered to the
/// categories of `tags`: what it covered before, and, where the category is
/// among the tags, what the pair covers.
pub proof fn lemma_with_limits_covers(
    frontiers: Map<Category, Seq<Limit>>,
    tags: Seq<Category>,
    cost: u64,
    time: u64,
    c: Category,
    x: u64,
    y: u64,
)
    ensures
        covers(with_limits(frontiers, tags, cost, time)[c], x, y) == (covers(frontiers[c], x, y) || (
        tags.contains(c) && cost <= x && time <= y)),
    decreases tags.len(),
{
    if tags.len() > 0 {
        let front = tags.drop_last();
        lemma_with_limits_covers(frontiers, front, cost, time, c, x, y);
        let before = with_limits(frontiers, front, cost, time);
        lemma_frontier_with_covers(before[tags.last()], cost, time, x, y);
        if tags.contains(c) {
            let i = choose|i: int| 0 <= i < tags.len() && tags[i] == c;
            if i < front.len() {
                assert(front[i] == c);
            }
        }
        if front.contains(c) {
            let i = choose|i: int| 0 <= i < front.len() && front[i] == c;
            assert(tags[i] == c);
        }
        assert(tags[tags.len() - 1] == tags.last());
    }
}

/// Along edge `e`, which leaves the node of `l`, a cost of `l` grows too
/// large for a `u64`.
pub open spec fn overflows(g: MLCGraph, l: LabelData<NodeId>, e: int) -> bool {
    &&& is_edge(g, e)
    &&& edge_source(g, e) == l.node_id
    &&& !(fits(sum_along(l.values, edge_weights(g, e))) && fits(
        sum_along(l.hidden_values, edge_hidden_weights(g, e)),
    ))
}

/// `n` zeros.
pub fn zeros(n: usize) -> (r: Vec<u64>)
    ensures
        r@ == Seq::new(n as nat, |i: int| 0u64),
{
    let mut r: Vec<u64> = Vec::with_capacity(n);
    let mut i: usize = 0;
    while i < n
        invariant
            i <= n,
            r@ == Seq::new(i as nat, |j: int| 0u64),
        decreases n - i,
    {
        r.push(0);
        assert(r@ =~= Seq::new((i + 1) as nat, |j: int| 0u64));
        i += 1;
    }
    r
}

/// Whether the bag holds a label with the visible costs of `label`.
pub fn holds_values(bag: &Bag<NodeId>, label: &Label<NodeId>) -> (r: bool)
    ensures
        r == exists|i: int| 0 <= i < bag@.len() && (#[trigger] bag@[i]).values == label@.values,
{
    let mut i: usize = 0;
    while i < bag.labels.len()
        invariant
            i <= bag.labels.len(),
            forall|j: int| 0 <= j < i ==> (#[trigger] bag@[j]).values != label@.values,
        decreases bag.labels.len() - i,
    {
        match compare_values(&bag.labels[i].values, &label.values) {
            Rank::Same => {
                assert(bag@[i as int].values == label@.values);
                return true;
            },
            _ => {
                proof {
                    crate::order::lemma_lex_total(bag@[i as int].values, label@.values);
                }
            },
        }
        i += 1;
    }
    false
}

impl Bag<NodeId> {
    /// Whether the bag holds every cost vector that `other` holds.
    pub fn holds_costs_of(&self, other: &Bag<NodeId>) -> (r: bool)
        ensures
            r == costs_of(other@).subset_of(costs_of(self@)),
    {
        let mut i: usize = 0;
        while i < other.labels.len()
            invariant
                i <= other.labels.len(),
                forall|j: int| 0 <= j < i ==> costs_of(self@).contains(#[trigger] other@[j].values),
            decreases other.labels.len() - i,
        {
            if !holds_values(self, &other.labels[i]) {
                assert(costs_of(other@).contains(other@[i as int].values));
                assert(!costs_of(self@).contains(other@[i as int].values));
                return false;
            }
            i += 1;
        }
        assert forall|v: Seq<u64>| costs_of(other@).contains(v) implies costs_of(self@).contains(
            v,
        ) by {
            let j = choose|j: int| 0 <= j < other@.len() && (#[trigger] other@[j]).values == v;
            assert(costs_of(self@).contains(other@[j].values));
        }
        true
    }

    /// Whether the two bags hold the same cost vectors.
    pub fn same_costs(&self, other: &Bag<NodeId>) -> (r: bool)
        ensures
            r == (costs_of(self@) == costs_of(other@)),
    {
        let r = self.holds_costs_of(other) && other.holds_costs_of(self);
        proof {
            if r {
                assert(costs_of(self@) =~= costs_of(other@));
            }
        }
        r
    }
}

/// Offers the pair (`cost`, `time`) to the category of every tag in `tags`.
pub fn update_limits(limits: &mut Limits<Category>, tags: &Vec<Category>, cost: u64, time: u64)
    requires
        old(limits).wf(),
        forall|i: int| 0 <= i < tags@.len() ==> old(limits).frontiers().contains_key(#[trigger] tags@[i]),
    ensures
        final(limits).wf(),
        final(limits).frontiers() == with_limits(old(limits).frontiers(), tags@, cost, time),
        final(limits).frontiers().dom() == old(limits).frontiers().dom(),
{
    let mut i: usize = 0;
    assert(tags@.take(0) =~= Seq::<Category>::empty());
    while i < tags.len()
        invariant
            i <= tags.len(),
            limits.wf(),
            limits.frontiers() == with_limits(old(limits).frontiers(), tags@.take(i as int), cost, time),
            limits.frontiers().dom() == old(limits).frontiers().dom(),
            forall|j: int|
                0 <= j < tags@.len() ==> old(limits).frontiers().contains_key(#[trigger] tags@[j]),
        decreases tags.len() - i,
    {
        proof {
            let next = tags@.take(i + 1);
            assert(next.drop_last() =~= tags@.take(i as int));
            assert(next.last() == tags@[i as int]);
            assert(old(limits).frontiers().contains_key(tags@[i as int]));
        }
        let ghost before = limits.frontiers();
        limits.update_limit(tags[i], cost, time);
        assert(limits.frontiers().dom() =~= before.dom());
        i += 1;
    }
    assert(tags@.take(tags@.len() as int) =~= tags@);
}

/// The labels of a bag to which a label was offered are that label and
/// labels of the bag.
pub proof fn lemma_bag_with_members(bag: Seq<LabelData<NodeId>>, label: LabelData<NodeId>)
    ensures
        forall|i: int|
            0 <= i < bag_with(bag, label).len() ==> (#[trigger] bag_with(bag, label)[i]) == label
                || exists|a: int| 0 <= a < bag.len() && bag[a] == bag_with(bag, label)[i],
{
    let after = bag_with(bag, label);
    if !bag_dominates(bag, label.values) {
        let pred = crate::bag::survives::<NodeId>(label.values);
        crate::bag::lemma_filter_origin(bag, pred);
        assert forall|i: int| 0 <= i < after.len() implies (#[trigger] after[i]) == label
            || exists|a: int| 0 <= a < bag.len() && bag[a] == after[i] by {
            if i < bag.filter(pred).len() {
                assert(after[i] == bag.filter(pred)[i]);
            }
        }
    }
}

/// Offering a label to the bag of a node does not raise the number of open
/// points, and lowers it where the bag of a node of the graph accepts the
/// label.
pub proof fn lemma_offer_measure(
    before: BagsView,
    label: LabelData<NodeId>,
    k: nat,
    m: nat,
    nodes: nat,
)
    requires
        bags_ok(before, k, m),
        label_fits(label, k, m),
    ensures
        open_points(
            before.insert(label.node_id, bag_with(bag_at(before, label.node_id as int), label)),
            k,
            nodes,
        ) <= open_points(before, k, nodes),
        label.node_id < nodes && !bag_dominates(bag_at(before, label.node_id as int), label.values)
            ==> open_points(
            before.insert(label.node_id, bag_with(bag_at(before, label.node_id as int), label)),
            k,
            nodes,
        ) < open_points(before, k, nodes),
{
    let t = label.node_id as int;
    let bag = bag_at(before, t);
    let after = before.insert(label.node_id, bag_with(bag, label));
    assert(uniform(bag, k)) by {
        if before.contains_key(label.node_id) {
            assert forall|i: int| 0 <= i < bag.len() implies (#[trigger] bag[i]).values.len()
                == k by {
                assert(label_fits(before[label.node_id][i], k, m));
            }
        }
    }
    lemma_uncovered_shrinks(bag, label, k);
    assert forall|n: int| n != t implies bag_at(before, n) == bag_at(after, n) by {}
    lemma_open_points_change(before, after, k, nodes, t);
    assert(bag_at(after, t) == bag_with(bag, label));
}

/// Every label of a bag of `after` is a label of the bag of that node in
/// `before`, or a label with its costs waits at that node.
pub open spec fn kept_or_waiting(
    before: BagsView,
    after: BagsView,
    waiting: Multiset<LabelData<NodeId>>,
) -> bool {
    forall|n: usize, i: int|
        after.contains_key(n) && 0 <= i < after[n].len() ==> (before.contains_key(n) && exists|
            a: int,
        |
            0 <= a < before[n].len() && before[n][a] == (#[trigger] after[n][i])) || pending(
            waiting,
            n,
            after[n][i].values,
        )
}

/// The cost vectors of `s` are in lexicographic order.
pub open spec fn lex_sorted(s: Seq<Seq<u64>>) -> bool {
    forall|i: int, j: int| 0 <= i <= j < s.len() ==> lex_le(#[trigger] s[i], #[trigger] s[j])
}

/// A sorted sequence stays sorted where a vector joins that does not come
/// before its last.
pub proof fn lemma_push_sorted(s: Seq<Seq<u64>>, v: Seq<u64>)
    requires
        lex_sorted(s),
        s.len() > 0 ==> lex_le(s.last(), v),
    ensures
        lex_sorted(s.push(v)),
{
    let t = s.push(v);
    assert forall|i: int, j: int| 0 <= i <= j < t.len() implies lex_le(
        #[trigger] t[i],
        #[trigger] t[j],
    ) by {
        if j < s.len() {
            assert(lex_le(s[i], s[j]));
        } else if i < s.len() {
            assert(lex_le(s[i], s[s.len() - 1]));
            lemma_lex_le_trans(s[i], s.last(), v);
        }
    }
}

/// What offering a label to the bag of its node does to the bags and to the
/// waiting labels: the bags cover more, the bag of the node covers the label,
/// and a label that is new in a bag waits.
pub proof fn lemma_offer_progress(
    bags0: BagsView,
    bags: BagsView,
    waiting: Multiset<LabelData<NodeId>>,
    bags2: BagsView,
    waiting2: Multiset<LabelData<NodeId>>,
    label: LabelData<NodeId>,
    k: nat,
    m: nat,
)
    requires
        bags_ok(bags, k, m),
        label_fits(label, k, m),
        bags2 == bags.insert(label.node_id, bag_with(bag_at(bags, label.node_id as int), label)),
        waiting2 == if bag_dominates(bag_at(bags, label.node_id as int), label.values) {
            waiting
        } else {
            waiting.insert(label)
        },
        covers_more(bags0, bags),
        kept_or_waiting(bags0, bags, waiting),
    ensures
        covers_more(bags, bags2),
        covers_more(bags0, bags2),
        kept_or_waiting(bags0, bags2, waiting2),
        bag_covers(bag_at(bags2, label.node_id as int), unbounded(label.values)),
{
    let t = label.node_id;
    let bag = bag_at(bags, t as int);
    let after = bag_with(bag, label);
    assert(uniform(bag, k)) by {
        if bags.contains_key(t) {
            assert forall|i: int| 0 <= i < bag.len() implies (#[trigger] bag[i]).values.len()
                == k by {
                assert(label_fits(bags[t][i], k, m));
            }
        }
    }
    lemma_bag_with_covers(bag, label, k);
    assert(bag_at(bags2, t as int) == after);
    assert forall|n: int, c: Seq<int>| #[trigger]
        bag_covers(bag_at(bags, n), c) implies bag_covers(bag_at(bags2, n), c) by {
        if n != t {
            assert(bag_at(bags, n) == bag_at(bags2, n));
        }
    }
    assert forall|n: int, c: Seq<int>| #[trigger]
        bag_covers(bag_at(bags0, n), c) implies bag_covers(bag_at(bags2, n), c) by {
        assert(bag_covers(bag_at(bags, n), c));
    }
    lemma_bag_with_members(bag, label);
    assert forall|n: usize, i: int|
        bags2.contains_key(n) && 0 <= i < bags2[n].len() implies (bags0.contains_key(n) && exists|
        a: int,
    |
        0 <= a < bags0[n].len() && bags0[n][a] == (#[trigger] bags2[n][i])) || pending(
        waiting2,
        n,
        bags2[n][i].values,
    ) by {
        if n != t {
            assert(bags.contains_key(n) && bags[n][i] == bags2[n][i]);
            if pending(waiting, n, bags[n][i].values) {
                let l = choose|l: LabelData<NodeId>| #[trigger]
                    waiting.contains(l) && l.node_id == n && l.values == bags[n][i].values;
                assert(waiting2.contains(l));
            }
        } else if after[i] == label {
            if bag_dominates(bag, label.values) {
                // the bag is as it was, and the label is one of it
                assert(bags.contains_key(t) && bags[t][i] == after[i]);
                if pending(waiting, t, bags[t][i].values) {
                    let l = choose|l: LabelData<NodeId>| #[trigger]
                        waiting.contains(l) && l.node_id == t && l.values == bags[t][i].values;
                    assert(waiting2.contains(l));
                }
            } else {
                assert(waiting2.contains(label));
            }
        } else {
            let a = choose|a: int| 0 <= a < bag.len() && bag[a] == after[i];
            assert(bags.contains_key(t) && bags[t][a] == after[i]);
            if pending(waiting, t, bags[t][a].values) {
                let l = choose|l: LabelData<NodeId>| #[trigger]
                    waiting.contains(l) && l.node_id == t && l.values == bags[t][a].values;
                assert(waiting2.contains(l));
            }
        }
    }
}

/// A label whose costs its node's bag does not hold can be dropped: the
/// bags stay settled.
pub proof fn lemma_dropped_settles(
    g: MLCGraph,
    bags: BagsView,
    waiting: Multiset<LabelData<NodeId>>,
    label: LabelData<NodeId>,
)
    requires
        settled(g, bags, waiting.insert(label)),
        forall|i: int|
            0 <= i < bag_at(bags, label.node_id as int).len() ==> (#[trigger] bag_at(
                bags,
                label.node_id as int,
            )[i]).values != label.values,
    ensures
        settled(g, bags, waiting),
{
    assert forall|n: usize, i: int| bags.contains_key(n) && 0 <= i < bags[n].len() implies pending(
        waiting,
        n,
        (#[trigger] bags[n][i]).values,
    ) || closed(g, bags, n as int, bags[n][i].values) by {
        if pending(waiting.insert(label), n, bags[n][i].values) {
            let l = choose|l: LabelData<NodeId>| #[trigger]
                waiting.insert(label).contains(l) && l.node_id == n && l.values
                    == bags[n][i].values;
            if l == label {
                assert(bag_at(bags, label.node_id as int)[i].values != label.values);
            } else {
                assert(waiting.contains(l));
            }
        }
    }
}

/// After a label was expanded, the bags are settled again.
pub proof fn lemma_expanded_settles(
    g: MLCGraph,
    bags0: BagsView,
    waiting0: Multiset<LabelData<NodeId>>,
    bags: BagsView,
    waiting: Multiset<LabelData<NodeId>>,
    label: LabelData<NodeId>,
)
    requires
        settled(g, bags0, waiting0.insert(label)),
        covers_more(bags0, bags),
        kept_or_waiting(bags0, bags, waiting),
        forall|x: LabelData<NodeId>| #[trigger] waiting0.contains(x) ==> waiting.contains(x),
        closed(g, bags, label.node_id as int, label.values),
    ensures
        settled(g, bags, waiting),
{
    assert forall|n: usize, i: int| bags.contains_key(n) && 0 <= i < bags[n].len() implies pending(
        waiting,
        n,
        (#[trigger] bags[n][i]).values,
    ) || closed(g, bags, n as int, bags[n][i].values) by {
        if !pending(waiting, n, bags[n][i].values) {
            let a = choose|a: int| 0 <= a < bags0[n].len() && bags0[n][a] == bags[n][i];
            let v = bags0[n][a].values;
            if pending(waiting0.insert(label), n, v) {
                let l = choose|l: LabelData<NodeId>| #[trigger]
                    waiting0.insert(label).contains(l) && l.node_id == n && l.values == v;
                if l != label {
                    assert(waiting0.contains(l));
                    assert(waiting.contains(l));
                }
            } else {
                lemma_closed_stays(g, bags0, bags, n as int, v);
            }
        }
    }
}

/// Bags that are settled stay settled where they come to cover more, where
/// the waiting labels stay, and where every new label of a bag waits.
pub proof fn lemma_covering_settles(
    g: MLCGraph,
    bags0: BagsView,
    waiting0: Multiset<LabelData<NodeId>>,
    bags: BagsView,
    waiting: Multiset<LabelData<NodeId>>,
)
    requires
        settled(g, bags0, waiting0),
        covers_more(bags0, bags),
        kept_or_waiting(bags0, bags, waiting),
        forall|x: LabelData<NodeId>| #[trigger] waiting0.contains(x) ==> waiting.contains(x),
    ensures
        settled(g, bags, waiting),
{
    assert forall|n: usize, i: int| bags.contains_key(n) && 0 <= i < bags[n].len() implies pending(
        waiting,
        n,
        (#[trigger] bags[n][i]).values,
    ) || closed(g, bags, n as int, bags[n][i].values) by {
        if !pending(waiting, n, bags[n][i].values) {
            let a = choose|a: int| 0 <= a < bags0[n].len() && bags0[n][a] == bags[n][i];
            let v = bags0[n][a].values;
            if pending(waiting0, n, v) {
                let l = choose|l: LabelData<NodeId>| #[trigger]
                    waiting0.contains(l) && l.node_id == n && l.values == v;
                assert(waiting.contains(l));
            } else {
                lemma_closed_stays(g, bags0, bags, n as int, v);
            }
        }
    }
}

/// Limits are `on`, and the costs `v` are two and exceeded.
pub open spec fn over(frontiers: Map<Category, Seq<Limit>>, on: bool, v: Seq<u64>) -> bool {
    on && v.len() == 2 && exceeded(frontiers, v[1], v[0])
}

/// The frontiers `after` have the categories of `before`, and cover what
/// they covered.
pub open spec fn tighter(
    before: Map<Category, Seq<Limit>>,
    after: Map<Category, Seq<Limit>>,
) -> bool {
    &&& before.dom() == after.dom()
    &&& forall|c: Category, x: u64, y: u64|
        before.contains_key(c) && covers(before[c], x, y) ==> #[trigger] covers(after[c], x, y)
}

/// Costs that are exceeded stay exceeded where the frontiers cover more.
pub proof fn lemma_over_stays(
    before: Map<Category, Seq<Limit>>,
    after: Map<Category, Seq<Limit>>,
    on: bool,
    v: Seq<u64>,
)
    requires
        tighter(before, after),
        over(before, on, v),
    ensures
        over(after, on, v),
{
    assert forall|c: Category| after.contains_key(c) implies best_time(#[trigger] after[c], v[1])
        <= v[0] by {
        assert(before.contains_key(c));
        let best = best_time(before[c], v[1]);
        assert(best <= v[0]);
        lemma_best_time(before[c], v[1]);
        lemma_best_time(after[c], v[1]);
        if best != u64::MAX {
            let i = choose|i: int|
                0 <= i < before[c].len() && (#[trigger] before[c][i]).cost <= v[1]
                    && before[c][i].time == best;
            assert(covers(before[c], v[1], best));
            assert(covers(after[c], v[1], best));
        }
    }
}

/// Offering a pair to the categories of `tags` leaves frontiers that cover
/// what they covered.
pub proof fn lemma_with_limits_tighter(
    frontiers: Map<Category, Seq<Limit>>,
    tags: Seq<Category>,
    cost: u64,
    time: u64,
)
    requires
        forall|i: int| 0 <= i < tags.len() ==> frontiers.contains_key(#[trigger] tags[i]),
    ensures
        tighter(frontiers, with_limits(frontiers, tags, cost, time)),
{
    lemma_with_limits_dom(frontiers, tags, cost, time);
    let after = with_limits(frontiers, tags, cost, time);
    assert forall|c: Category, x: u64, y: u64|
        frontiers.contains_key(c) && covers(frontiers[c], x, y) implies #[trigger] covers(
        after[c],
        x,
        y,
    ) by {
        lemma_with_limits_covers(frontiers, tags, cost, time, c, x, y);
    }
}

/// What `l` gives along every edge that leaves its node is covered by the
/// bag of the node that the edge reaches.
pub open spec fn closed_by(
    g: MLCGraph,
    hook: Option<Box<dyn LabelUpdate>>,
    off: bool,
    bags: BagsView,
    l: LabelData<NodeId>,
) -> bool {
    forall|e: int|
        is_edge(g, e) && #[trigger] edge_source(g, e) == l.node_id ==> bag_covers(
            bag_at(bags, edge_target(g, e)),
            unbounded(along(g, hook, off, l, e).values),
        )
}

/// The label `l` is done with: what it gives along every edge is covered.
/// Without a label update that changes labels this is said of its costs.
pub open spec fn done(
    g: MLCGraph,
    hook: Option<Box<dyn LabelUpdate>>,
    off: bool,
    bags: BagsView,
    l: LabelData<NodeId>,
) -> bool {
    if plain_hook(hook) {
        closed(g, bags, l.node_id as int, l.values)
    } else {
        closed_by(g, hook, off, bags, l)
    }
}

/// A label waits that stands for `l`: it is at the node of `l` and has its
/// costs, and with a label update that changes labels it is `l` itself.
pub open spec fn waits(
    hook: Option<Box<dyn LabelUpdate>>,
    waiting: Multiset<LabelData<NodeId>>,
    l: LabelData<NodeId>,
) -> bool {
    exists|w: LabelData<NodeId>| #[trigger]
        waiting.contains(w) && w.node_id == l.node_id && w.values == l.values && (plain_hook(hook)
            || w == l)
}

/// Every label of a bag waits to be expanded, is done with, or is exceeded.
pub open spec fn calm(
    g: MLCGraph,
    hook: Option<Box<dyn LabelUpdate>>,
    off: bool,
    bags: BagsView,
    waiting: Multiset<LabelData<NodeId>>,
    frontiers: Map<Category, Seq<Limit>>,
    on: bool,
) -> bool {
    forall|n: usize, i: int|
        bags.contains_key(n) && 0 <= i < bags[n].len() ==> waits(hook, waiting, #[trigger] bags[n][i])
            || done(g, hook, off, bags, bags[n][i]) || over(frontiers, on, bags[n][i].values)
}

/// Every label of a bag of `after` is a label of that bag in `before`, or
/// waits.
pub open spec fn kept_or_pushed(
    before: BagsView,
    after: BagsView,
    waiting: Multiset<LabelData<NodeId>>,
) -> bool {
    forall|n: usize, i: int|
        after.contains_key(n) && 0 <= i < after[n].len() ==> (before.contains_key(n) && exists|
            a: int,
        |
            0 <= a < before[n].len() && before[n][a] == (#[trigger] after[n][i]))
            || waiting.contains(after[n][i])
}

/// Offering a label that waits where it is accepted keeps every new label of
/// a bag waiting.
pub proof fn lemma_offer_pushed(
    bags0: BagsView,
    bags: BagsView,
    waiting: Multiset<LabelData<NodeId>>,
    bags2: BagsView,
    waiting2: Multiset<LabelData<NodeId>>,
    label: LabelData<NodeId>,
)
    requires
        bags2 == bags.insert(label.node_id, bag_with(bag_at(bags, label.node_id as int), label)),
        waiting2 == if bag_dominates(bag_at(bags, label.node_id as int), label.values) {
            waiting
        } else {
            waiting.insert(label)
        },
        kept_or_pushed(bags0, bags, waiting),
    ensures
        kept_or_pushed(bags0, bags2, waiting2),
{
    let t = label.node_id;
    let bag = bag_at(bags, t as int);
    let after = bag_with(bag, label);
    lemma_bag_with_members(bag, label);
    assert forall|n: usize, i: int|
        bags2.contains_key(n) && 0 <= i < bags2[n].len() implies (bags0.contains_key(n) && exists|
        a: int,
    |
        0 <= a < bags0[n].len() && bags0[n][a] == (#[trigger] bags2[n][i])) || waiting2.contains(
        bags2[n][i],
    ) by {
        if n != t {
            assert(bags.contains_key(n) && bags[n][i] == bags2[n][i]);
            if waiting.contains(bags[n][i]) {
                assert(waiting2.contains(bags[n][i]));
            }
        } else if bag_dominates(bag, label.values) {
            assert(after == bag);
            assert(bags.contains_key(t) && bags[t][i] == bags2[t][i]);
        } else if after[i] != label {
            let a = choose|a: int| 0 <= a < bag.len() && bag[a] == after[i];
            assert(bags.contains_key(t) && bags[t][a] == after[i]);
            if waiting.contains(bags[t][a]) {
                assert(waiting2.contains(bags[t][a]));
            }
        } else {
            assert(waiting2.contains(label));
        }
    }
}

/// What stays covered where bags cover more.
pub proof fn lemma_closed_by_stays(
    g: MLCGraph,
    hook: Option<Box<dyn LabelUpdate>>,
    off: bool,
    before: BagsView,
    after: BagsView,
    l: LabelData<NodeId>,
)
    requires
        done(g, hook, off, before, l),
        covers_more(before, after),
    ensures
        done(g, hook, off, after, l),
{
    if plain_hook(hook) {
        lemma_closed_stays(g, before, after, l.node_id as int, l.values);
    } else {
        assert forall|e: int|
            is_edge(g, e) && #[trigger] edge_source(g, e) == l.node_id implies bag_covers(
            bag_at(after, edge_target(g, e)),
            unbounded(along(g, hook, off, l, e).values),
        ) by {
            assert(bag_covers(
                bag_at(before, edge_target(g, e)),
                unbounded(along(g, hook, off, l, e).values),
            ));
        }
    }
}

/// After a label was taken from the waiting labels and dropped as exceeded
/// or stale, or expanded, the bags are calm again.
pub proof fn lemma_taken_calms(
    g: MLCGraph,
    hook: Option<Box<dyn LabelUpdate>>,
    off: bool,
    on: bool,
    bags0: BagsView,
    waiting0: Multiset<LabelData<NodeId>>,
    frontiers0: Map<Category, Seq<Limit>>,
    bags: BagsView,
    waiting: Multiset<LabelData<NodeId>>,
    frontiers: Map<Category, Seq<Limit>>,
    label: LabelData<NodeId>,
)
    requires
        calm(g, hook, off, bags0, waiting0.insert(label), frontiers0, on),
        covers_more(bags0, bags),
        kept_or_pushed(bags0, bags, waiting),
        forall|x: LabelData<NodeId>| #[trigger] waiting0.contains(x) ==> waiting.contains(x),
        tighter(frontiers0, frontiers),
        forall|n: usize, i: int|
            bags0.contains_key(n) && 0 <= i < bags0[n].len() ==> (#[trigger] bags0[n][i]).node_id
                == n,
        done(g, hook, off, bags, label) || over(frontiers0, on, label.values) || forall|i: int|
            0 <= i < bag_at(bags0, label.node_id as int).len() ==> (#[trigger] bag_at(
                bags0,
                label.node_id as int,
            )[i]).values != label.values,
    ensures
        calm(g, hook, off, bags, waiting, frontiers, on),
{
    assert forall|n: usize, i: int| bags.contains_key(n) && 0 <= i < bags[n].len() implies waits(
        hook,
        waiting,
        #[trigger] bags[n][i],
    ) || done(g, hook, off, bags, bags[n][i]) || over(frontiers, on, bags[n][i].values) by {
        let l = bags[n][i];
        if !waiting.contains(l) {
            let a = choose|a: int| 0 <= a < bags0[n].len() && bags0[n][a] == l;
            assert(bags0[n][a] == l);
            if waits(hook, waiting0.insert(label), l) {
                let w = choose|w: LabelData<NodeId>| #[trigger]
                    waiting0.insert(label).contains(w) && w.node_id == l.node_id && w.values
                        == l.values && (plain_hook(hook) || w == l);
                if waiting0.contains(w) {
                    assert(waiting.contains(w));
                } else {
                    assert(w == label);
                    assert(l.node_id == n);
                    assert(bag_at(bags0, label.node_id as int) == bags0[n]);
                    assert(bag_at(bags0, label.node_id as int)[a].values == label.values);
                    if over(frontiers0, on, label.values) {
                        lemma_over_stays(frontiers0, frontiers, on, l.values);
                    }
                }
            } else if done(g, hook, off, bags0, l) {
                lemma_closed_by_stays(g, hook, off, bags0, bags, l);
            } else {
                lemma_over_stays(frontiers0, frontiers, on, l.values);
            }
        }
    }
}

/// Bags that are calm stay calm where they come to cover more, where the
/// waiting labels stay, where every new label of a bag waits, and where the
/// frontiers cover what they covered.
pub proof fn lemma_covering_calms(
    g: MLCGraph,
    hook: Option<Box<dyn LabelUpdate>>,
    off: bool,
    on: bool,
    bags0: BagsView,
    waiting0: Multiset<LabelData<NodeId>>,
    frontiers0: Map<Category, Seq<Limit>>,
    bags: BagsView,
    waiting: Multiset<LabelData<NodeId>>,
    frontiers: Map<Category, Seq<Limit>>,
)
    requires
        calm(g, hook, off, bags0, waiting0, frontiers0, on),
        covers_more(bags0, bags),
        kept_or_pushed(bags0, bags, waiting),
        forall|x: LabelData<NodeId>| #[trigger] waiting0.contains(x) ==> waiting.contains(x),
        tighter(frontiers0, frontiers),
    ensures
        calm(g, hook, off, bags, waiting, frontiers, on),
{
    assert forall|n: usize, i: int| bags.contains_key(n) && 0 <= i < bags[n].len() implies waits(
        hook,
        waiting,
        #[trigger] bags[n][i],
    ) || done(g, hook, off, bags, bags[n][i]) || over(frontiers, on, bags[n][i].values) by {
        let l = bags[n][i];
        if !waiting.contains(l) {
            let a = choose|a: int| 0 <= a < bags0[n].len() && bags0[n][a] == l;
            assert(bags0[n][a] == l);
            if waits(hook, waiting0, l) {
                let w = choose|w: LabelData<NodeId>| #[trigger]
                    waiting0.contains(w) && w.node_id == l.node_id && w.values == l.values && (
                    plain_hook(hook) || w == l);
                assert(waiting.contains(w));
            } else if done(g, hook, off, bags0, l) {
                lemma_closed_by_stays(g, hook, off, bags0, bags, l);
            } else {
                lemma_over_stays(frontiers0, frontiers, on, l.values);
            }
        }
    }
}

/// Bags that are settled are calm where no label update changes labels.
pub proof fn lemma_settled_is_calm(
    g: MLCGraph,
    hook: Option<Box<dyn LabelUpdate>>,
    off: bool,
    on: bool,
    bags: BagsView,
    waiting: Multiset<LabelData<NodeId>>,
    frontiers: Map<Category, Seq<Limit>>,
)
    requires
        settled(g, bags, waiting),
        plain_hook(hook),
        forall|n: usize, i: int|
            bags.contains_key(n) && 0 <= i < bags[n].len() ==> (#[trigger] bags[n][i]).node_id == n,
    ensures
        calm(g, hook, off, bags, waiting, frontiers, on),
{
    assert forall|n: usize, i: int| bags.contains_key(n) && 0 <= i < bags[n].len() implies waits(
        hook,
        waiting,
        #[trigger] bags[n][i],
    ) || done(g, hook, off, bags, bags[n][i]) || over(frontiers, on, bags[n][i].values) by {
        if pending(waiting, n, bags[n][i].values) {
            let w = choose|w: LabelData<NodeId>| #[trigger]
                waiting.contains(w) && w.node_id == n && w.values == bags[n][i].values;
            assert(waiting.contains(w));
        }
    }
}

/// The label `x` is what `l` gives along an edge that leaves its node, with
/// sums that are not too large.
pub open spec fn made(
    g: MLCGraph,
    hook: Option<Box<dyn LabelUpdate>>,
    off: bool,
    l: LabelData<NodeId>,
    x: LabelData<NodeId>,
) -> bool {
    exists|e: int|
        is_edge(g, e) && #[trigger] edge_source(g, e) == l.node_id && !overflows(g, l, e) && x
            == along(g, hook, off, l, e)
}

/// The bags and the waiting labels grew from those before by labels that `l`
/// gives along an edge: every other label was there before.
pub open spec fn grown_by(
    g: MLCGraph,
    hook: Option<Box<dyn LabelUpdate>>,
    off: bool,
    bags0: BagsView,
    waiting0: Multiset<LabelData<NodeId>>,
    l: LabelData<NodeId>,
    bags: BagsView,
    waiting: Multiset<LabelData<NodeId>>,
) -> bool {
    &&& forall|n: usize, i: int|
        bags.contains_key(n) && 0 <= i < bags[n].len() ==> (bags0.contains_key(n) && exists|a: int|
            0 <= a < bags0[n].len() && bags0[n][a] == (#[trigger] bags[n][i])) || made(
            g,
            hook,
            off,
            l,
            bags[n][i],
        )
    &&& forall|x: LabelData<NodeId>| #[trigger]
        waiting.contains(x) ==> waiting0.contains(x) || made(g, hook, off, l, x)
}

/// Offering a label that `l` gives along an edge keeps the bags and the
/// waiting labels grown by `l`.
pub proof fn lemma_offer_grows_by(
    g: MLCGraph,
    hook: Option<Box<dyn LabelUpdate>>,
    off: bool,
    bags0: BagsView,
    waiting0: Multiset<LabelData<NodeId>>,
    l: LabelData<NodeId>,
    bags: BagsView,
    waiting: Multiset<LabelData<NodeId>>,
    bags2: BagsView,
    waiting2: Multiset<LabelData<NodeId>>,
    x: LabelData<NodeId>,
)
    requires
        grown_by(g, hook, off, bags0, waiting0, l, bags, waiting),
        made(g, hook, off, l, x),
        bags2 == bags.insert(x.node_id, bag_with(bag_at(bags, x.node_id as int), x)),
        waiting2 == waiting || waiting2 == waiting.insert(x),
    ensures
        grown_by(g, hook, off, bags0, waiting0, l, bags2, waiting2),
{
    let t = x.node_id;
    let bag = bag_at(bags, t as int);
    let after = bag_with(bag, x);
    lemma_bag_with_members(bag, x);
    assert forall|n: usize, i: int|
        bags2.contains_key(n) && 0 <= i < bags2[n].len() implies (bags0.contains_key(n) && exists|
        a: int,
    |
        0 <= a < bags0[n].len() && bags0[n][a] == (#[trigger] bags2[n][i])) || made(
        g,
        hook,
        off,
        l,
        bags2[n][i],
    ) by {
        if n != t {
            assert(bags.contains_key(n) && bags[n][i] == bags2[n][i]);
        } else if after[i] != x {
            let a = choose|a: int| 0 <= a < bag.len() && bag[a] == after[i];
            assert(bags.contains_key(t) && bags[t][a] == after[i]);
        }
    }
    assert forall|y: LabelData<NodeId>| #[trigger] waiting2.contains(y) implies waiting0.contains(
        y,
    ) || made(g, hook, off, l, y) by {
        if y != x {
            assert(waiting.contains(y));
        }
    }
}

/// The label that the edges `p`, one after the other, make of the label `s`.
pub open spec fn chain(
    g: MLCGraph,
    hook: Option<Box<dyn LabelUpdate>>,
    off: bool,
    s: LabelData<NodeId>,
    p: Seq<int>,
) -> LabelData<NodeId>
    decreases p.len(),
{
    if p.len() == 0 {
        s
    } else {
        along(g, hook, off, chain(g, hook, off, s, p.drop_last()), p.last())
    }
}

/// The edges `p` lead on from the label `s`: each leaves the node of the
/// label that the edges before it make of `s`, with sums that are not too
/// large.
pub open spec fn leads(
    g: MLCGraph,
    hook: Option<Box<dyn LabelUpdate>>,
    off: bool,
    s: LabelData<NodeId>,
    p: Seq<int>,
) -> bool
    decreases p.len(),
{
    if p.len() == 0 {
        true
    } else {
        let before = chain(g, hook, off, s, p.drop_last());
        &&& leads(g, hook, off, s, p.drop_last())
        &&& is_edge(g, p.last())
        &&& edge_source(g, p.last()) == before.node_id
        &&& !overflows(g, before, p.last())
    }
}

/// The label `x` is what edges that lead on from one of the labels `from`
/// make of it.
pub open spec fn traced(
    g: MLCGraph,
    hook: Option<Box<dyn LabelUpdate>>,
    off: bool,
    from: Set<LabelData<NodeId>>,
    x: LabelData<NodeId>,
) -> bool {
    exists|s: LabelData<NodeId>, p: Seq<int>|
        from.contains(s) && leads(g, hook, off, s, p) && x == #[trigger] chain(g, hook, off, s, p)
}

/// Every label of the bags, and every waiting label, is what edges make of
/// one of the labels `from`.
pub open spec fn all_traced(
    g: MLCGraph,
    hook: Option<Box<dyn LabelUpdate>>,
    off: bool,
    from: Set<LabelData<NodeId>>,
    bags: BagsView,
    waiting: Multiset<LabelData<NodeId>>,
) -> bool {
    &&& forall|n: usize, i: int|
        bags.contains_key(n) && 0 <= i < bags[n].len() ==> traced(
            g,
            hook,
            off,
            from,
            #[trigger] bags[n][i],
        )
    &&& forall|x: LabelData<NodeId>| #[trigger] waiting.contains(x) ==> traced(g, hook, off, from, x)
}

/// The labels with which a search begins are what no edge makes of them.
pub proof fn lemma_origins_are_traced(
    g: MLCGraph,
    hook: Option<Box<dyn LabelUpdate>>,
    off: bool,
    bags: BagsView,
    waiting: Multiset<LabelData<NodeId>>,
)
    ensures
        all_traced(g, hook, off, origins(bags, waiting), bags, waiting),
{
    let from = origins(bags, waiting);
    let none = Seq::<int>::empty();
    assert forall|x: LabelData<NodeId>| from.contains(x) implies traced(g, hook, off, from, x) by {
        assert(leads(g, hook, off, x, none) && x == chain(g, hook, off, x, none));
    }
    assert forall|n: usize, i: int| bags.contains_key(n) && 0 <= i < bags[n].len() implies traced(
        g,
        hook,
        off,
        from,
        #[trigger] bags[n][i],
    ) by {
        assert(from.contains(bags[n][i]));
    }
    assert forall|x: LabelData<NodeId>| #[trigger] waiting.contains(x) implies traced(
        g,
        hook,
        off,
        from,
        x,
    ) by {
        assert(from.contains(x));
    }
}

/// What a traced label gives along an edge is traced.
pub proof fn lemma_made_is_traced(
    g: MLCGraph,
    hook: Option<Box<dyn LabelUpdate>>,
    off: bool,
    from: Set<LabelData<NodeId>>,
    l: LabelData<NodeId>,
    x: LabelData<NodeId>,
)
    requires
        traced(g, hook, off, from, l),
        made(g, hook, off, l, x),
    ensures
        traced(g, hook, off, from, x),
{
    let (s, p) = choose|s: LabelData<NodeId>, p: Seq<int>|
        from.contains(s) && leads(g, hook, off, s, p) && l == #[trigger] chain(g, hook, off, s, p);
    let e = choose|e: int|
        is_edge(g, e) && #[trigger] edge_source(g, e) == l.node_id && !overflows(g, l, e) && x
            == along(g, hook, off, l, e);
    let q = p.push(e);
    assert(q.drop_last() =~= p);
    assert(leads(g, hook, off, s, q));
    assert(x == chain(g, hook, off, s, q));
}

/// Bags and waiting labels that grew from traced ones by what a waiting
/// label gives along edges are traced.
pub proof fn lemma_grown_is_traced(
    g: MLCGraph,
    hook: Option<Box<dyn LabelUpdate>>,
    off: bool,
    from: Set<LabelData<NodeId>>,
    bags0: BagsView,
    waiting0: Multiset<LabelData<NodeId>>,
    l: LabelData<NodeId>,
    bags: BagsView,
    waiting: Multiset<LabelData<NodeId>>,
)
    requires
        all_traced(g, hook, off, from, bags0, waiting0),
        waiting0.contains(l),
        grown_by(g, hook, off, bags0, waiting0, l, bags, waiting),
    ensures
        all_traced(g, hook, off, from, bags, waiting),
{
    assert forall|n: usize, i: int| bags.contains_key(n) && 0 <= i < bags[n].len() implies traced(
        g,
        hook,
        off,
        from,
        #[trigger] bags[n][i],
    ) by {
        if made(g, hook, off, l, bags[n][i]) {
            lemma_made_is_traced(g, hook, off, from, l, bags[n][i]);
        } else {
            let a = choose|a: int| 0 <= a < bags0[n].len() && bags0[n][a] == bags[n][i];
            assert(traced(g, hook, off, from, bags0[n][a]));
        }
    }
    assert forall|x: LabelData<NodeId>| #[trigger] waiting.contains(x) implies traced(
        g,
        hook,
        off,
        from,
        x,
    ) by {
        if !waiting0.contains(x) {
            lemma_made_is_traced(g, hook, off, from, l, x);
        }
    }
}

/// One label was taken from the waiting labels, and no waiting label came
/// before it: its costs are the last of `after`, which holds `before` in
/// front of them.
pub open spec fn taken_first(
    waiting: Multiset<LabelData<NodeId>>,
    before: Seq<Seq<u64>>,
    after: Seq<Seq<u64>>,
) -> bool {
    &&& after.len() == before.len() + 1
    &&& after.drop_last() == before
    &&& exists|l: LabelData<NodeId>| #[trigger] waiting.contains(l) && l.values == after.last()
    &&& forall|x: LabelData<NodeId>| #[trigger]
        waiting.contains(x) ==> lex_le(after.last(), x.values)
}

/// Offering a label that continues the label `l` keeps the bags and the
/// waiting labels grown from `l`.
pub proof fn lemma_offer_grows(
    g: MLCGraph,
    bags0: BagsView,
    waiting0: Multiset<LabelData<NodeId>>,
    l: LabelData<NodeId>,
    bags: BagsView,
    waiting: Multiset<LabelData<NodeId>>,
    bags2: BagsView,
    waiting2: Multiset<LabelData<NodeId>>,
    x: LabelData<NodeId>,
    off: bool,
)
    requires
        grown_from(g, bags0, waiting0, l, bags, waiting, off),
        continues(g, l, x, off),
        bags2 == bags.insert(x.node_id, bag_with(bag_at(bags, x.node_id as int), x)),
        waiting2 == waiting || waiting2 == waiting.insert(x),
    ensures
        grown_from(g, bags0, waiting0, l, bags2, waiting2, off),
{
    let t = x.node_id;
    let bag = bag_at(bags, t as int);
    let after = bag_with(bag, x);
    lemma_bag_with_members(bag, x);
    assert forall|n: usize, i: int|
        bags2.contains_key(n) && 0 <= i < bags2[n].len() implies (bags0.contains_key(n) && exists|
        a: int,
    |
        0 <= a < bags0[n].len() && bags0[n][a] == (#[trigger] bags2[n][i])) || continues(
        g,
        l,
        bags2[n][i],
        off,
    ) by {
        if n != t {
            assert(bags.contains_key(n) && bags[n][i] == bags2[n][i]);
        } else if after[i] != x {
            let a = choose|a: int| 0 <= a < bag.len() && bag[a] == after[i];
            assert(bags.contains_key(t) && bags[t][a] == after[i]);
        }
    }
    assert forall|y: LabelData<NodeId>| #[trigger] waiting2.contains(y) implies waiting0.contains(
        y,
    ) || continues(g, l, y, off) by {
        if y != x {
            assert(waiting.contains(y));
        }
    }
}

/// The bags of a search that has run are a result: bags that are antichains,
/// that cover what the bags before covered, that are closed, and whose labels
/// hold the costs of paths from the start labels, are a result of the search
/// from these start labels, where every label that waited was covered by the
/// bag of its node.
pub proof fn lemma_search_gives_result(
    g: MLCGraph,
    bags0: BagsView,
    waiting0: Multiset<LabelData<NodeId>>,
    bags: BagsView,
    k: nat,
    m: nat,
)
    requires
        bags_ok(bags0, k, m),
        bags_ok(bags, k, m),
        forall|x: LabelData<NodeId>| #[trigger]
            waiting0.contains(x) ==> bag_covers(
                bag_at(bags0, x.node_id as int),
                unbounded(x.values),
            ),
        covers_more(bags0, bags),
        all_closed(g, bags),
        sound(g, seeds_of(bags0, waiting0), bags, Multiset::empty()),
    ensures
        is_result(g, seeds_of(bags0, waiting0), bags, k),
{
    reveal(is_result);
    let seeds = seeds_of(bags0, waiting0);
    assert forall|n: usize| #[trigger] bags.contains_key(n) implies uniform(bags[n], k)
        && is_antichain(bags[n]) by {
        assert forall|i: int| 0 <= i < bags[n].len() implies (#[trigger] bags[n][i]).values.len()
            == k by {
            assert(label_fits(bags[n][i], k, m));
        }
    }
    assert forall|s: (NodeId, Seq<u64>)| #[trigger] seeds.contains(s) implies bag_covers(
        bag_at(bags, s.0 as int),
        unbounded(s.1),
    ) by {
        if bags0.contains_key(s.0) && exists|i: int|
            0 <= i < bags0[s.0].len() && (#[trigger] bags0[s.0][i]).values == s.1 {
            let i = choose|i: int| 0 <= i < bags0[s.0].len() && (#[trigger] bags0[s.0][i]).values == s.1;
            assert(crate::paths::below(bags0[s.0][i].values, unbounded(s.1)));
            assert(bag_covers(bag_at(bags0, s.0 as int), unbounded(s.1)));
        } else {
            let x = choose|x: LabelData<NodeId>| #[trigger]
                waiting0.contains(x) && x.node_id == s.0 && x.values == s.1;
            assert(bag_covers(bag_at(bags0, x.node_id as int), unbounded(x.values)));
        }
    }
}

/// A search on one graph.
pub struct MLC<'a> {
    graph: &'a MLCGraph,
    update_label_func: Option<Box<dyn LabelUpdate>>,
    node_map: Option<NodeMap>,
    debug: bool,
    disable_paths: bool,
    enable_limit: bool,
    skip_stale: bool,
    weight_length: usize,
    hidden_weights_length: usize,
    bags: Bags<usize>,
    queue: LabelQueue,
    limits: Limits<Category>,
    popped: Ghost<Seq<Seq<u64>>>,
}

impl<'a> MLC<'a> {
    /// The cost vectors of the labels that the last run took from the
    /// waiting labels, in the order in which it took them.
    pub closed spec fn popped(&self) -> Seq<Seq<u64>> {
        self.popped@
    }

    /// Every label of a bag either waits to be expanded, or what continues it
    /// is covered by the bag of the node that it reaches.
    pub open spec fn settled(&self) -> bool {
        settled(self.graph(), self.bags_view(), self.waiting())
    }

    /// Every label that waits is covered by the bag of its node.
    pub open spec fn tidy(&self) -> bool {
        forall|x: LabelData<NodeId>| #[trigger]
            self.waiting().contains(x) ==> bag_covers(
                bag_at(self.bags_view(), x.node_id as int),
                unbounded(x.values),
            )
    }

    /// The graph that is searched.
    pub closed spec fn graph(&self) -> MLCGraph {
        *self.graph
    }

    /// The bags, each as the sequence of what its labels hold.
    pub closed spec fn bags_view(&self) -> BagsView {
        bags_view(self.bags@)
    }

    /// The labels that wait to be expanded.
    pub closed spec fn waiting(&self) -> Multiset<LabelData<NodeId>> {
        self.queue@
    }

    /// The frontier of each category.
    pub closed spec fn frontiers(&self) -> Map<Category, Seq<Limit>> {
        self.limits.frontiers()
    }

    /// The number of visible weights of an edge.
    pub closed spec fn weights(&self) -> nat {
        self.weight_length as nat
    }

    /// The number of hidden weights of an edge.
    pub closed spec fn hidden_weights(&self) -> nat {
        self.hidden_weights_length as nat
    }

    /// Whether labels are made without their paths.
    pub closed spec fn paths_disabled(&self) -> bool {
        self.disable_paths
    }

    /// Whether labels are held against the limits.
    pub closed spec fn limit_enabled(&self) -> bool {
        self.enable_limit
    }

    /// Whether the state of the search is written out while it runs.
    pub closed spec fn debug_enabled(&self) -> bool {
        self.debug
    }

    /// Whether a label update is set.
    pub open spec fn has_update(&self) -> bool {
        self.update_func() is Some
    }

    /// Whether a label that is taken from the waiting labels is passed over
    /// where the bag of its node holds its costs no more.
    pub closed spec fn skips_stale(&self) -> bool {
        self.skip_stale
    }

    /// The label update, where one is set.
    pub closed spec fn update_func(&self) -> Option<Box<dyn LabelUpdate>> {
        self.update_label_func
    }

    /// The label that `l` gives along edge `e` in this search.
    pub open spec fn along(&self, l: LabelData<NodeId>, e: int) -> LabelData<NodeId> {
        along(self.graph(), self.update_func(), self.paths_disabled(), l, e)
    }

    /// No label update is set, or one that gives every extended label as it
    /// is.
    pub open spec fn plain(&self) -> bool {
        plain_hook(self.update_func())
    }

    /// The names of the nodes, where a node map is set.
    pub closed spec fn names(&self) -> Option<Map<Seq<char>, usize>> {
        match self.node_map {
            Some(m) => Some(node_ids(m)),
            None => None,
        }
    }

    /// The parts of the state that only `new` sets and that the queue and the
    /// limits keep to themselves.
    pub closed spec fn inner_wf(&self) -> bool {
        &&& self.queue.wf()
        &&& self.limits.wf()
    }

    /// What a search must be: the graph has an edge, all its edges have as
    /// many weights, every category tag is registered, and the bags and the
    /// waiting labels fit the graph.
    pub open spec fn wf(&self) -> bool {
        &&& self.inner_wf()
        &&& graph_edges(self.graph()).len() > 0
        &&& ends_below(self.graph(), graph_nodes(self.graph()).len() as int)
        &&& edges_uniform(self.graph(), self.weights(), self.hidden_weights())
        &&& tags_known(self.graph(), self.frontiers())
        &&& bags_ok(self.bags_view(), self.weights(), self.hidden_weights())
        &&& queue_ok(self.waiting(), self.weights(), self.hidden_weights())
    }

    /// A search on `g`, without start labels, with paths, without limits and
    /// without a label update. It is refused where `g` has no edge, or edges
    /// with different numbers of weights.
    pub fn new(g: &'a MLCGraph) -> (r: Result<MLC<'a>, MLCError>)
        ensures
            match r {
                Ok(mlc) => {
                    &&& mlc.wf()
                    &&& mlc.settled()
                    &&& mlc.tidy()
                    &&& mlc.graph() == *g
                    &&& mlc.weights() == edge_weights(*g, 0).len()
                    &&& mlc.hidden_weights() == edge_hidden_weights(*g, 0).len()
                    &&& mlc.bags_view() == Map::<usize, Seq<LabelData<NodeId>>>::empty()
                    &&& mlc.waiting() == Multiset::<LabelData<NodeId>>::empty()
                    &&& !mlc.paths_disabled()
                    &&& !mlc.limit_enabled()
                    &&& !mlc.debug_enabled()
                    &&& mlc.skips_stale()
                    &&& !mlc.has_update()
                    &&& mlc.update_func() is None
                    &&& mlc.names() is None
                    &&& forall|c: Category| #[trigger]
                        mlc.frontiers().contains_key(c) ==> mlc.frontiers()[c] == seq![
                            Limit { cost: u64::MAX, time: u64::MAX },
                        ]
                    &&& forall|c: Category| #[trigger] mlc.frontiers().contains_key(c) <==> is_tag(*g, c)
                },
                Err(MLCError::GraphHasNoEdges) => graph_edges(*g).len() == 0,
                Err(MLCError::InconsistentEdgeWeights) => graph_edges(*g).len() > 0 && !edges_uniform(
                    *g,
                    edge_weights(*g, 0).len(),
                    edge_hidden_weights(*g, 0).len(),
                ),
                Err(_) => false,
            },
            graph_edges(*g).len() > 0 && edges_uniform(
                *g,
                edge_weights(*g, 0).len(),
                edge_hidden_weights(*g, 0).len(),
            ) ==> r is Ok,
    {
        broadcast use vstd::std_specs::hash::group_hash_axioms;

        let n_edges = edge_count(g);
        if n_edges == 0 {
            return Err(MLCError::GraphHasNoEdges);
        }
        let sample = edge_weight(g, 0);
        let n_weights = sample.weights.len();
        let n_hidden_weights = sample.hidden_weights.len();
        let mut e: usize = 0;
        while e < n_edges
            invariant
                e <= n_edges,
                n_edges == graph_edges(*g).len(),
                n_weights == edge_weights(*g, 0).len(),
                n_hidden_weights == edge_hidden_weights(*g, 0).len(),
                uniform_below(*g, e as int, n_weights as nat, n_hidden_weights as nat),
            decreases n_edges - e,
        {
            let weight = edge_weight(g, e);
            if weight.weights.len() != n_weights || weight.hidden_weights.len()
                != n_hidden_weights {
                assert(is_edge(*g, e as int));
                return Err(MLCError::InconsistentEdgeWeights);
            }
            proof {
                lemma_uniform_grows(*g, e as int, n_weights as nat, n_hidden_weights as nat);
            }
            e += 1;
        }
        proof {
            lemma_uniform_all(*g, n_weights as nat, n_hidden_weights as nat);
        }
        let mut limits: Limits<Category> = Limits::new();
        let n_nodes = node_count(g);
        let mut n: usize = 0;
        let sentinel = Limit { cost: u64::MAX, time: u64::MAX };
        while n < n_nodes
            invariant
                n <= n_nodes,
                n_nodes == graph_nodes(*g).len(),
                limits.wf(),
                sentinel == (Limit { cost: u64::MAX, time: u64::MAX }),
                forall|c: Category| #[trigger]
                    limits.frontiers().contains_key(c) ==> limits.frontiers()[c] == seq![sentinel],
                forall|c: Category| #[trigger] limits.frontiers().contains_key(c) ==> is_tag(*g, c),
                forall|a: int, i: int|
                    0 <= a < n && 0 <= i < graph_nodes(*g)[a].len()
                        ==> limits.frontiers().contains_key(#[trigger] graph_nodes(*g)[a][i]),
            decreases n_nodes - n,
        {
            let tags = node_tags(g, n);
            let mut t: usize = 0;
            while t < tags.len()
                invariant
                    t <= tags.len(),
                    n < n_nodes,
                    n_nodes == graph_nodes(*g).len(),
                    tags@ == graph_nodes(*g)[n as int],
                    limits.wf(),
                    sentinel == (Limit { cost: u64::MAX, time: u64::MAX }),
                    forall|c: Category| #[trigger]
                        limits.frontiers().contains_key(c) ==> limits.frontiers()[c] == seq![
                            sentinel,
                        ],
                    forall|c: Category| #[trigger]
                        limits.frontiers().contains_key(c) ==> is_tag(*g, c),
                    forall|a: int, i: int|
                        0 <= a < n && 0 <= i < graph_nodes(*g)[a].len()
                            ==> limits.frontiers().contains_key(#[trigger] graph_nodes(*g)[a][i]),
                    forall|i: int|
                        0 <= i < t ==> limits.frontiers().contains_key(
                            #[trigger] graph_nodes(*g)[n as int][i],
                        ),
                decreases tags.len() - t,
            {
                assert(graph_nodes(*g)[n as int][t as int] == tags@[t as int]);
                limits.add_category(tags[t]);
                t += 1;
            }
            n += 1;
        }
        let mlc = MLC {
            graph: g,
            bags: HashMap::new(),
            queue: LabelQueue::new(),
            weight_length: n_weights,
            node_map: None,
            disable_paths: false,
            hidden_weights_length: n_hidden_weights,
            update_label_func: None,
            debug: false,
            limits,
            enable_limit: false,
            skip_stale: true,
            popped: Ghost(Seq::empty()),
        };
        assert(mlc.bags_view() =~= Map::<usize, Seq<LabelData<NodeId>>>::empty());
        assert forall|c: Category| is_tag(*g, c) implies #[trigger] mlc.frontiers().contains_key(
            c,
        ) by {
            let (a, i) = choose|a: int, i: int|
                0 <= a < graph_nodes(*g).len() && 0 <= i < graph_nodes(*g)[a].len()
                    && #[trigger] graph_nodes(*g)[a][i] == c;
            assert(limits.frontiers().contains_key(graph_nodes(*g)[a][i]));
        }
        Ok(mlc)
    }

    /// Sets the rewrite that every extended label goes through.
    pub fn set_update_label_func(&mut self, update_label_func: Box<dyn LabelUpdate>)
        requires
            old(self).wf(),
        ensures
            final(self).wf(),
            final(self).update_func() == Some(update_label_func),
            final(self).same_search(old(self)),
            final(self).same_switches(old(self), true, true, true),
    {
        let update = filled(update_label_func);
        self.update_label_func = update;
    }

    /// Switches the writing of the search's state on or off.
    pub fn set_debug(&mut self, debug: bool)
        requires
            old(self).wf(),
        ensures
            final(self).wf(),
            final(self).debug_enabled() == debug,
            final(self).has_update() == old(self).has_update(),
            final(self).update_func() == old(self).update_func(),
            final(self).same_search(old(self)),
            final(self).same_switches(old(self), true, true, false),
    {
        self.debug = debug;
    }

    /// Sets the names of the nodes.
    pub fn set_node_map(&mut self, node_map: NodeMap)
        requires
            old(self).wf(),
        ensures
            final(self).wf(),
            final(self).names() == Some(node_ids(node_map)),
            final(self).has_update() == old(self).has_update(),
            final(self).update_func() == old(self).update_func(),
            final(self).same_search(old(self)),
            final(self).same_switches(old(self), false, true, true),
    {
        self.node_map = Some(node_map);
    }

    /// Switches the keeping of paths off or on.
    pub fn set_disable_paths(&mut self, disable_paths: bool)
        requires
            old(self).wf(),
        ensures
            final(self).wf(),
            final(self).paths_disabled() == disable_paths,
            final(self).has_update() == old(self).has_update(),
            final(self).update_func() == old(self).update_func(),
            final(self).same_search(old(self)),
            final(self).same_switches(old(self), true, false, true),
    {
        self.disable_paths = disable_paths;
    }

    /// Switches the limits on or off.
    pub fn set_enable_limit(&mut self, enable_limit: bool)
        requires
            old(self).wf(),
        ensures
            final(self).wf(),
            final(self).limit_enabled() == enable_limit,
            final(self).has_update() == old(self).has_update(),
            final(self).update_func() == old(self).update_func(),
            final(self).paths_disabled() == old(self).paths_disabled(),
            final(self).debug_enabled() == old(self).debug_enabled(),
            final(self).skips_stale() == old(self).skips_stale(),
            final(self).names() == old(self).names(),
            final(self).same_search(old(self)),
    {
        self.enable_limit = enable_limit;
    }

    /// Switches on or off that a label which was taken from the waiting
    /// labels is passed over where the bag of its node holds its costs no
    /// more. It is on in a new search; with it off, every such label is
    /// expanded.
    pub fn set_skip_stale(&mut self, skip_stale: bool)
        requires
            old(self).wf(),
        ensures
            final(self).wf(),
            final(self).skips_stale() == skip_stale,
            final(self).limit_enabled() == old(self).limit_enabled(),
            final(self).has_update() == old(self).has_update(),
            final(self).update_func() == old(self).update_func(),
            final(self).paths_disabled() == old(self).paths_disabled(),
            final(self).debug_enabled() == old(self).debug_enabled(),
            final(self).names() == old(self).names(),
            final(self).same_search(old(self)),
            old(self).settled() ==> final(self).settled(),
            old(self).tidy() ==> final(self).tidy(),
            old(self).calm() ==> final(self).calm(),
    {
        self.skip_stale = skip_stale;
    }

    /// Takes `bags` as the bags of the search, in place of those that it had,
    /// and lets every label of them wait to be expanded. Where limits are on,
    /// the second and first cost of every label with two costs or more are
    /// offered as cost and time to the category of every tag of the label's
    /// node.
    pub fn set_bags(&mut self, bags: Bags<usize>)
        requires
            old(self).wf(),
            bags_ok(bags_view(bags@), old(self).weights(), old(self).hidden_weights()),
        ensures
            final(self).wf(),
            final(self).same_setup(old(self)),
            final(self).settled(),
            final(self).calm(),
            old(self).waiting().len() == 0 ==> final(self).tidy(),
            final(self).bags_view() == bags_view(bags@),
            forall|x: LabelData<NodeId>|
                #[trigger] final(self).waiting().count(x) == old(self).waiting().count(x) + bag_at(
                    bags_view(bags@),
                    x.node_id as int,
                ).to_multiset().count(x),
            final(self).frontiers().dom() == old(self).frontiers().dom(),
            !old(self).limit_enabled() ==> final(self).frontiers() == old(self).frontiers(),
            old(self).limit_enabled() ==> forall|c: Category, x: u64, y: u64|
                #[trigger] covers(final(self).frontiers()[c], x, y) == (covers(
                    old(self).frontiers()[c],
                    x,
                    y,
                ) || offered(old(self).graph(), bags_view(bags@), c, x, y)),
    {
        broadcast use vstd::std_specs::hash::group_hash_axioms;
        broadcast use vstd::seq_lib::group_to_multiset_ensures;

        self.bags = bags;
        let ghost view = self.bags_view();
        let ghost waiting0 = self.waiting();
        let ghost frontiers0 = self.frontiers();
        let g: &MLCGraph = self.graph;
        let n_nodes = node_count(g);
        let keys = keys_of(&self.bags);
        assert(view.dom() =~= self.bags@.dom());
        let mut a: usize = 0;
        while a < keys.len()
            invariant
                a <= keys.len(),
                self.wf(),
                self.same_setup(old(self)),
                self.bags_view() == view,
                view == bags_view(bags@),
                g == self.graph,
                n_nodes == graph_nodes(self.graph()).len(),
                keys@.no_duplicates(),
                keys@.to_set() == view.dom(),
                self.frontiers().dom() == old(self).frontiers().dom(),
                !self.limit_enabled() ==> self.frontiers() == old(self).frontiers(),
                frontiers0 == old(self).frontiers(),
                self.limit_enabled() ==> forall|c: Category, x: u64, y: u64|
                    #[trigger] covers(self.frontiers()[c], x, y) == (covers(frontiers0[c], x, y)
                        || exists|b: int, j: int|
                        0 <= b < a && offers(self.graph(), view, keys@[b], j, c, x, y)),
                forall|x: LabelData<NodeId>|
                    #[trigger] self.waiting().count(x) == waiting0.count(x) + (if exists|b: int|
                        0 <= b < a && keys@[b] == x.node_id {
                        bag_at(view, x.node_id as int).to_multiset().count(x)
                    } else {
                        0
                    }),
            decreases keys.len() - a,
        {
            let key = keys[a];
            assert(keys@.to_set().contains(keys@[a as int]));
            assert(view.contains_key(key));
            let ghost bag_view = view[key];
            let ghost waiting1 = self.waiting();
            let ghost frontiers1 = self.frontiers();
            let n_labels = match self.bags.get(&key) {
                Some(bag) => bag.labels.len(),
                None => 0,
            };
            let mut i: usize = 0;
            proof {
                let none = bag_view.take(0);
                assert(none =~= Seq::<LabelData<NodeId>>::empty());
                vstd::seq_lib::to_multiset_len(none);
                vstd::multiset::lemma_multiset_empty_len(none.to_multiset());
                assert(none.to_multiset() =~= Multiset::empty());
            }
            while i < n_labels
                invariant
                    i <= n_labels,
                    a < keys.len(),
                    key == keys@[a as int],
                    self.wf(),
                    self.same_setup(old(self)),
                    self.bags_view() == view,
                    view.contains_key(key),
                    bag_view == view[key],
                    n_labels == bag_view.len(),
                    g == self.graph,
                    n_nodes == graph_nodes(self.graph()).len(),
                    self.frontiers().dom() == old(self).frontiers().dom(),
                    !self.limit_enabled() ==> self.frontiers() == old(self).frontiers(),
                    self.limit_enabled() ==> forall|c: Category, x: u64, y: u64|
                        #[trigger] covers(self.frontiers()[c], x, y) == (covers(frontiers1[c], x, y)
                            || exists|j: int|
                            0 <= j < i && offers(self.graph(), view, key, j, c, x, y)),
                    forall|x: LabelData<NodeId>|
                        #[trigger] self.waiting().count(x) == waiting1.count(x) + bag_view.take(
                            i as int,
                        ).to_multiset().count(x),
                decreases n_labels - i,
            {
                let ghost frontiers2 = self.frontiers();
                let label = match self.bags.get(&key) {
                    Some(bag) => bag.labels[i].clone(),
                    None => Label {
                        values: Vec::new(),
                        hidden_values: Vec::new(),
                        path: Vec::new(),
                        node_id: key,
                    },
                };
                assert(label@ == bag_view[i as int]);
                assert(label_fits(bag_view[i as int], self.weights(), self.hidden_weights()));
                if self.enable_limit && key < n_nodes && label.values.len() >= 2 {
                    let tags = node_tags(g, key);
                    let cost = label.values[1];
                    let time = label.values[0];
                    assert forall|t: int| 0 <= t < tags@.len() implies self.limits.frontiers().contains_key(
                        #[trigger] tags@[t],
                    ) by {
                        assert(self.frontiers().contains_key(graph_nodes(self.graph())[key as int][t]));
                    }
                    update_limits(&mut self.limits, tags, cost, time);
                }
                let ghost waiting2 = self.waiting();
                self.queue.push(label);
                proof {
                    let l = bag_view[i as int];
                    if self.limit_enabled() {
                        assert forall|c: Category, x: u64, y: u64|
                            #[trigger] covers(self.frontiers()[c], x, y) == (covers(
                                frontiers1[c],
                                x,
                                y,
                            ) || exists|j: int|
                                0 <= j < i + 1 && offers(self.graph(), view, key, j, c, x, y)) by {
                            let here = offers(self.graph(), view, key, i as int, c, x, y);
                            assert(covers(frontiers2[c], x, y) == (covers(frontiers1[c], x, y)
                                || exists|j: int|
                                0 <= j < i && offers(self.graph(), view, key, j, c, x, y)));
                            if key < n_nodes && l.values.len() >= 2 {
                                lemma_with_limits_covers(
                                    frontiers2,
                                    graph_nodes(self.graph())[key as int],
                                    l.values[1],
                                    l.values[0],
                                    c,
                                    x,
                                    y,
                                );
                            } else {
                                assert(self.frontiers() == frontiers2);
                            }
                            assert(covers(self.frontiers()[c], x, y) == (covers(frontiers2[c], x, y)
                                || here));
                            if exists|j: int|
                                0 <= j < i + 1 && offers(self.graph(), view, key, j, c, x, y) {
                                let j = choose|j: int|
                                    0 <= j < i + 1 && offers(self.graph(), view, key, j, c, x, y);
                                if j < i {
                                } else {
                                    assert(j == i);
                                }
                            }
                        }
                    }
                    assert(bag_view.take(i + 1) =~= bag_view.take(i as int).push(l));
                    vstd::seq_lib::to_multiset_build(bag_view.take(i as int), l);
                    assert forall|x: LabelData<NodeId>|
                        #[trigger] self.waiting().count(x) == waiting1.count(x) + bag_view.take(
                            i + 1,
                        ).to_multiset().count(x) by {
                        assert(waiting2.count(x) == waiting1.count(x) + bag_view.take(
                            i as int,
                        ).to_multiset().count(x));
                    }
                    assert forall|x: LabelData<NodeId>| #[trigger]
                        self.waiting().contains(x) implies label_fits(
                        x,
                        self.weights(),
                        self.hidden_weights(),
                    ) by {
                        if x != l {
                            assert(waiting2.contains(x));
                        }
                    }
                }
                i += 1;
            }
            proof {
                assert(bag_view.take(bag_view.len() as int) =~= bag_view);
                if self.limit_enabled() {
                    assert forall|c: Category, x: u64, y: u64|
                        #[trigger] covers(self.frontiers()[c], x, y) == (covers(frontiers0[c], x, y)
                            || exists|b: int, j: int|
                            0 <= b < a + 1 && offers(self.graph(), view, keys@[b], j, c, x, y)) by {
                        assert(covers(frontiers1[c], x, y) == (covers(frontiers0[c], x, y)
                            || exists|b: int, j: int|
                            0 <= b < a && offers(self.graph(), view, keys@[b], j, c, x, y)));
                        assert(covers(self.frontiers()[c], x, y) == (covers(frontiers1[c], x, y)
                            || exists|j: int|
                            0 <= j < n_labels && offers(self.graph(), view, key, j, c, x, y)));
                        if exists|b: int, j: int|
                            0 <= b < a + 1 && offers(self.graph(), view, keys@[b], j, c, x, y) {
                            let (b, j) = choose|b: int, j: int|
                                0 <= b < a + 1 && offers(self.graph(), view, keys@[b], j, c, x, y);
                            if b < a {
                            } else {
                                assert(keys@[b] == key);
                                assert(0 <= j < n_labels && offers(self.graph(), view, key, j, c, x, y));
                            }
                        }
                        if exists|j: int|
                            0 <= j < n_labels && offers(self.graph(), view, key, j, c, x, y) {
                            let j = choose|j: int|
                                0 <= j < n_labels && offers(self.graph(), view, key, j, c, x, y);
                            assert(offers(self.graph(), view, keys@[a as int], j, c, x, y));
                        }
                    }
                }
                assert forall|x: LabelData<NodeId>|
                    #[trigger] self.waiting().count(x) == waiting0.count(x) + (if exists|b: int|
                        0 <= b < a + 1 && keys@[b] == x.node_id {
                        bag_at(view, x.node_id as int).to_multiset().count(x)
                    } else {
                        0
                    }) by {
                    assert(waiting1.count(x) == waiting0.count(x) + (if exists|b: int|
                        0 <= b < a && keys@[b] == x.node_id {
                        bag_at(view, x.node_id as int).to_multiset().count(x)
                    } else {
                        0
                    }));
                    if x.node_id == key {
                        assert(bag_at(view, x.node_id as int) == bag_view);
                        if exists|b: int| 0 <= b < a && keys@[b] == x.node_id {
                            let b = choose|b: int| 0 <= b < a && keys@[b] == x.node_id;
                            assert(keys@[b] == keys@[a as int]);
                            assert(false);
                        }
                        assert(keys@[a as int] == x.node_id);
                    } else {
                        // the labels of a bag are at the bag's node
                        if bag_view.to_multiset().count(x) > 0 {
                            vstd::seq_lib::to_multiset_contains(bag_view, x);
                            let j = choose|j: int| 0 <= j < bag_view.len() && bag_view[j] == x;
                            assert(view[key][j].node_id == key);
                            assert(false);
                        }
                        if exists|b: int| 0 <= b < a + 1 && keys@[b] == x.node_id {
                            let b = choose|b: int| 0 <= b < a + 1 && keys@[b] == x.node_id;
                            assert(b < a);
                        }
                    }
                }
            }
            a += 1;
        }
        proof {
            if self.limit_enabled() {
                assert forall|c: Category, x: u64, y: u64|
                    #[trigger] covers(self.frontiers()[c], x, y) == (covers(frontiers0[c], x, y)
                        || offered(self.graph(), view, c, x, y)) by {
                    if offered(self.graph(), view, c, x, y) {
                        let (node, j) = choose|node: usize, j: int|
                            offers(self.graph(), view, node, j, c, x, y);
                        assert(keys@.to_set().contains(node));
                        let b = choose|b: int| 0 <= b < keys@.len() && keys@[b] == node;
                        assert(0 <= b < a && offers(self.graph(), view, keys@[b], j, c, x, y));
                    }
                    if exists|b: int, j: int|
                        0 <= b < a && offers(self.graph(), view, keys@[b], j, c, x, y) {
                        let (b, j) = choose|b: int, j: int|
                            0 <= b < a && offers(self.graph(), view, keys@[b], j, c, x, y);
                        assert(offers(self.graph(), view, keys@[b], j, c, x, y));
                    }
                }
            }
            assert forall|x: LabelData<NodeId>|
                #[trigger] self.waiting().count(x) == old(self).waiting().count(x) + bag_at(
                    view,
                    x.node_id as int,
                ).to_multiset().count(x) by {
                if view.contains_key(x.node_id) {
                    assert(keys@.to_set().contains(x.node_id));
                    let b = choose|b: int| 0 <= b < keys@.len() && keys@[b] == x.node_id;
                } else {
                    assert(bag_at(view, x.node_id as int) =~= Seq::empty());
                    if exists|b: int| 0 <= b < a && keys@[b] == x.node_id {
                        let b = choose|b: int| 0 <= b < a && keys@[b] == x.node_id;
                        assert(keys@.to_set().contains(keys@[b]));
                    }
                }
            }
            if old(self).waiting().len() == 0 {
                assert forall|x: LabelData<NodeId>| #[trigger]
                    self.waiting().contains(x) implies bag_covers(
                    bag_at(view, x.node_id as int),
                    unbounded(x.values),
                ) by {
                    vstd::multiset::lemma_multiset_empty_len(old(self).waiting());
                    assert(old(self).waiting().count(x) == 0);
                    let bag = bag_at(view, x.node_id as int);
                    assert(bag.to_multiset().count(x) > 0);
                    vstd::seq_lib::to_multiset_contains(bag, x);
                    let j = choose|j: int| 0 <= j < bag.len() && bag[j] == x;
                    assert(crate::paths::below(bag[j].values, unbounded(x.values)));
                }
            }
            assert forall|n: usize, i: int|
                view.contains_key(n) && 0 <= i < view[n].len() implies pending(
                self.waiting(),
                n,
                (#[trigger] view[n][i]).values,
            ) || closed(self.graph(), view, n as int, view[n][i].values) by {
                let x = view[n][i];
                assert(x.node_id == n);
                assert(bag_at(view, n as int) == view[n]);
                vstd::seq_lib::to_multiset_contains(view[n], x);
                assert(view[n].to_multiset().count(x) > 0);
                assert(self.waiting().contains(x));
            }
            assert forall|n: usize, i: int| view.contains_key(n) && 0 <= i < view[n].len() implies waits(
                self.update_func(),
                self.waiting(),
                #[trigger] view[n][i],
            ) by {
                let x = view[n][i];
                assert(x.node_id == n);
                assert(bag_at(view, n as int) == view[n]);
                vstd::seq_lib::to_multiset_contains(view[n], x);
                assert(view[n].to_multiset().count(x) > 0);
                assert(self.waiting().contains(x));
            }
        }
    }

    /// The graph, the numbers of weights and the switches are those of
    /// `other`.
    pub open spec fn same_setup(&self, other: &Self) -> bool {
        &&& self.graph() == other.graph()
        &&& self.weights() == other.weights()
        &&& self.hidden_weights() == other.hidden_weights()
        &&& self.has_update() == other.has_update()
        &&& self.update_func() == other.update_func()
        &&& self.same_switches(other, true, true, true)
    }

    /// Makes `start_node` a start of the search: a label without costs waits
    /// there, and is alone in the node's bag.
    pub fn set_start_node(&mut self, start_node: usize)
        requires
            old(self).wf(),
        ensures
            final(self).wf(),
            final(self).same_setup(old(self)),
            final(self).frontiers() == old(self).frontiers(),
            covers_more(old(self).bags_view(), final(self).bags_view()),
            old(self).settled() ==> final(self).settled(),
            old(self).tidy() ==> final(self).tidy(),
            old(self).calm() ==> final(self).calm(),
            final(self).bags_view() == old(self).bags_view().insert(
                start_node,
                seq![
                    start_label(
                        start_node,
                        Seq::new(old(self).weights(), |i: int| 0u64),
                        old(self).hidden_weights(),
                        old(self).paths_disabled(),
                    ),
                ],
            ),
            final(self).waiting() == old(self).waiting().insert(
                start_label(
                    start_node,
                    Seq::new(old(self).weights(), |i: int| 0u64),
                    old(self).hidden_weights(),
                    old(self).paths_disabled(),
                ),
            ),
    {
        let values = zeros(self.weight_length);
        self.start_from(start_node, values);
    }

    /// Makes `start_node` a start of the search at the time `time`: a label
    /// whose first cost is `time` waits there, and is alone in the node's bag.
    pub fn set_start_node_with_time(&mut self, start_node: usize, time: usize)
        requires
            old(self).wf(),
            old(self).weights() > 0,
        ensures
            final(self).wf(),
            final(self).same_setup(old(self)),
            final(self).frontiers() == old(self).frontiers(),
            old(self).settled() && !old(self).bags_view().contains_key(start_node)
                ==> final(self).settled(),
            old(self).tidy() && !old(self).bags_view().contains_key(start_node)
                ==> final(self).tidy(),
            old(self).calm() && !old(self).bags_view().contains_key(start_node)
                ==> final(self).calm(),
            final(self).bags_view() == old(self).bags_view().insert(
                start_node,
                seq![
                    start_label(
                        start_node,
                        Seq::new(old(self).weights(), |i: int| 0u64).update(0, time as u64),
                        old(self).hidden_weights(),
                        old(self).paths_disabled(),
                    ),
                ],
            ),
            final(self).waiting() == old(self).waiting().insert(
                start_label(
                    start_node,
                    Seq::new(old(self).weights(), |i: int| 0u64).update(0, time as u64),
                    old(self).hidden_weights(),
                    old(self).paths_disabled(),
                ),
            ),
    {
        let mut values = zeros(self.weight_length);
        values[0] = time as u64;
        self.start_from(start_node, values);
    }

    /// Makes `start_node` a start of the search with the costs `values`.
    fn start_from(&mut self, start_node: usize, values: Vec<u64>)
        requires
            old(self).wf(),
            values@.len() == old(self).weights(),
        ensures
            final(self).wf(),
            final(self).same_setup(old(self)),
            final(self).frontiers() == old(self).frontiers(),
            old(self).settled() && covers_more(old(self).bags_view(), final(self).bags_view())
                ==> final(self).settled(),
            old(self).tidy() && covers_more(old(self).bags_view(), final(self).bags_view())
                ==> final(self).tidy(),
            old(self).calm() && covers_more(old(self).bags_view(), final(self).bags_view())
                ==> final(self).calm(),
            !old(self).bags_view().contains_key(start_node) ==> covers_more(
                old(self).bags_view(),
                final(self).bags_view(),
            ),
            (forall|i: int| 0 <= i < values@.len() ==> values@[i] == 0) ==> covers_more(
                old(self).bags_view(),
                final(self).bags_view(),
            ),
            final(self).bags_view() == old(self).bags_view().insert(
                start_node,
                seq![
                    start_label(
                        start_node,
                        values@,
                        old(self).hidden_weights(),
                        old(self).paths_disabled(),
                    ),
                ],
            ),
            final(self).waiting() == old(self).waiting().insert(
                start_label(
                    start_node,
                    values@,
                    old(self).hidden_weights(),
                    old(self).paths_disabled(),
                ),
            ),
    {
        broadcast use vstd::std_specs::hash::group_hash_axioms;

        let hidden_values = zeros(self.hidden_weights_length);
        let mut start_path: Vec<NodeId> = Vec::new();
        if !self.disable_paths {
            start_path.push(start_node);
        }
        let label = Label { values, hidden_values, path: start_path, node_id: start_node };
        let ghost l = label@;
        assert(l.path =~= if self.disable_paths {
            Seq::<NodeId>::empty()
        } else {
            seq![start_node]
        });
        assert(l == start_label(
            start_node,
            values@,
            self.hidden_weights(),
            self.paths_disabled(),
        ));
        self.queue.push(label.clone());
        self.bags.insert(start_node, Bag::new_start_bag(label));
        proof {
            assert(self.bags_view() =~= old(self).bags_view().insert(start_node, seq![l]));
            assert forall|n: usize| #[trigger] self.bags_view().contains_key(n) implies {
                &&& is_antichain(self.bags_view()[n])
                &&& forall|i: int|
                    0 <= i < self.bags_view()[n].len() ==> (#[trigger] self.bags_view()[n][i]).node_id
                        == n && label_fits(
                        self.bags_view()[n][i],
                        self.weights(),
                        self.hidden_weights(),
                    )
            } by {
                if n != start_node {
                    assert(old(self).bags_view().contains_key(n));
                }
            }
            assert forall|x: LabelData<NodeId>| #[trigger]
                self.waiting().contains(x) implies label_fits(
                x,
                self.weights(),
                self.hidden_weights(),
            ) by {
                if x != l {
                    assert(old(self).waiting().contains(x));
                }
            }
            let bags0 = old(self).bags_view();
            let bags = self.bags_view();
            assert(bag_at(bags, start_node as int) == seq![l]);
            if !bags0.contains_key(start_node) || (forall|i: int|
                0 <= i < values@.len() ==> values@[i] == 0) {
                assert forall|n: int, c: Seq<int>| #[trigger]
                    bag_covers(bag_at(bags0, n), c) implies bag_covers(bag_at(bags, n), c) by {
                    if n == start_node {
                        let old_bag = bag_at(bags0, n);
                        let i = choose|i: int|
                            0 <= i < old_bag.len() && crate::paths::below(
                                #[trigger] old_bag[i].values,
                                c,
                            );
                        assert(bags0.contains_key(start_node));
                        assert(label_fits(
                            bags0[start_node][i],
                            self.weights(),
                            self.hidden_weights(),
                        ));
                        assert(crate::paths::below(seq![l][0].values, c));
                    } else {
                        assert(bag_at(bags0, n) == bag_at(bags, n));
                    }
                }
            }
            if old(self).tidy() && covers_more(bags0, bags) {
                assert forall|x: LabelData<NodeId>| #[trigger]
                    self.waiting().contains(x) implies bag_covers(
                    bag_at(bags, x.node_id as int),
                    unbounded(x.values),
                ) by {
                    if x == l {
                        assert(crate::paths::below(seq![l][0].values, unbounded(l.values)));
                    } else {
                        assert(old(self).waiting().contains(x));
                        assert(bag_covers(bag_at(bags0, x.node_id as int), unbounded(x.values)));
                    }
                }
            }
            if old(self).calm() && covers_more(bags0, bags) {
                assert forall|n: usize, i: int|
                    bags.contains_key(n) && 0 <= i < bags[n].len() implies (bags0.contains_key(n)
                    && exists|a: int|
                    0 <= a < bags0[n].len() && bags0[n][a] == (#[trigger] bags[n][i]))
                    || self.waiting().contains(bags[n][i]) by {
                    if n == start_node {
                        assert(self.waiting().contains(l));
                    } else {
                        assert(bags0[n][i] == bags[n][i]);
                    }
                }
                lemma_covering_calms(
                    self.graph(),
                    self.update_func(),
                    self.paths_disabled(),
                    self.limit_enabled(),
                    bags0,
                    old(self).waiting(),
                    self.frontiers(),
                    bags,
                    self.waiting(),
                    self.frontiers(),
                );
            }
            if old(self).settled() && covers_more(bags0, bags) {
                assert forall|n: usize, i: int|
                    bags.contains_key(n) && 0 <= i < bags[n].len() implies (bags0.contains_key(n)
                    && exists|a: int|
                    0 <= a < bags0[n].len() && bags0[n][a] == (#[trigger] bags[n][i])) || pending(
                    self.waiting(),
                    n,
                    bags[n][i].values,
                ) by {
                    if n == start_node {
                        assert(self.waiting().contains(l));
                    } else {
                        assert(bags0[n][i] == bags[n][i]);
                    }
                }
                lemma_covering_settles(
                    self.graph(),
                    bags0,
                    old(self).waiting(),
                    bags,
                    self.waiting(),
                );
            }
        }
    }

    /// Makes the node with the name `start_node` a start of the search, as
    /// `set_start_node` does with its index.
    pub fn set_external_start_node(&mut self, start_node: String) -> (r: Result<(), MLCError>)
        requires
            old(self).wf(),
        ensures
            final(self).wf(),
            final(self).same_setup(old(self)),
            final(self).frontiers() == old(self).frontiers(),
            match r {
                Ok(()) => {
                    &&& old(self).names() is Some
                    &&& old(self).names()->0.contains_key(start_node@)
                    &&& old(self).settled() ==> final(self).settled()
                    &&& old(self).tidy() ==> final(self).tidy()
                    &&& old(self).calm() ==> final(self).calm()
                    &&& final(self).bags_view() == old(self).bags_view().insert(
                        old(self).names()->0[start_node@],
                        seq![
                            start_label(
                                old(self).names()->0[start_node@],
                                Seq::new(old(self).weights(), |i: int| 0u64),
                                old(self).hidden_weights(),
                                old(self).paths_disabled(),
                            ),
                        ],
                    )
                    &&& final(self).waiting() == old(self).waiting().insert(
                        start_label(
                            old(self).names()->0[start_node@],
                            Seq::new(old(self).weights(), |i: int| 0u64),
                            old(self).hidden_weights(),
                            old(self).paths_disabled(),
                        ),
                    )
                },
                Err(MLCError::NodeMapNotSet) => {
                    &&& old(self).names() is None
                    &&& final(self).bags_view() == old(self).bags_view()
                    &&& final(self).waiting() == old(self).waiting()
                },
                Err(MLCError::StartNodeNotFound(name)) => {
                    &&& old(self).names() is Some
                    &&& !old(self).names()->0.contains_key(start_node@)
                    &&& name@ == start_node@
                    &&& final(self).bags_view() == old(self).bags_view()
                    &&& final(self).waiting() == old(self).waiting()
                },
                Err(_) => false,
            },
    {
        let found: Option<usize> = match &self.node_map {
            None => {
                return Err(MLCError::NodeMapNotSet);
            },
            Some(node_map) => match id_of(node_map, &start_node) {
                Some(id) => Some(*id),
                None => None,
            },
        };
        match found {
            None => Err(MLCError::StartNodeNotFound(start_node)),
            Some(id) => {
                self.set_start_node(id);
                Ok(())
            },
        }
    }

    /// Offers `label` to the bag of its node. Where the bag accepts it, the
    /// label waits to be expanded, and, where limits are on and the label has
    /// two costs or more, its second and first cost are offered as cost and
    /// time to the category of every tag of the node.
    pub fn offer(&mut self, label: Label<NodeId>) -> (added: bool)
        requires
            old(self).wf(),
            label_fits(label@, old(self).weights(), old(self).hidden_weights()),
            label@.node_id < graph_nodes(old(self).graph()).len(),
        ensures
            final(self).wf(),
            final(self).same_setup(old(self)),
            added == !bag_dominates(
                bag_at(old(self).bags_view(), label@.node_id as int),
                label@.values,
            ),
            final(self).bags_view() == old(self).bags_view().insert(
                label@.node_id,
                bag_with(bag_at(old(self).bags_view(), label@.node_id as int), label@),
            ),
            final(self).waiting() == if added {
                old(self).waiting().insert(label@)
            } else {
                old(self).waiting()
            },
            final(self).frontiers() == if added && old(self).limit_enabled() && label@.values.len()
                >= 2 {
                with_limits(
                    old(self).frontiers(),
                    graph_nodes(old(self).graph())[label@.node_id as int],
                    label@.values[1],
                    label@.values[0],
                )
            } else {
                old(self).frontiers()
            },
            final(self).frontiers().dom() == old(self).frontiers().dom(),
            final(self).popped() == old(self).popped(),
    {
        broadcast use vstd::std_specs::hash::group_hash_axioms;

        let node = label.node_id;
        let ghost l = label@;
        let ghost before = self.bags_view();
        let ghost old_bag = bag_at(before, node as int);
        let mut bag = match self.bags.remove(&node) {
            Some(b) => b,
            None => Bag::new_empty(),
        };
        assert(bag@ == old_bag);
        assert(bag.wf()) by {
            if before.contains_key(node) {
                assert(is_antichain(before[node]));
            }
        }
        let added = bag.add_if_necessary(label.clone());
        self.bags.insert(node, bag);
        proof {
            let after = self.bags_view();
            assert(after =~= before.insert(node, bag_with(old_bag, l)));
            lemma_bag_with_members(old_bag, l);
            assert forall|n: usize| #[trigger] after.contains_key(n) implies {
                &&& is_antichain(after[n])
                &&& forall|i: int|
                    0 <= i < after[n].len() ==> (#[trigger] after[n][i]).node_id == n
                        && label_fits(after[n][i], self.weights(), self.hidden_weights())
            } by {
                if n == node {
                    assert forall|i: int| 0 <= i < after[n].len() implies (
                    #[trigger] after[n][i]).node_id == n && label_fits(
                        after[n][i],
                        self.weights(),
                        self.hidden_weights(),
                    ) by {
                        if after[n][i] != l {
                            let a = choose|a: int|
                                0 <= a < old_bag.len() && old_bag[a] == after[n][i];
                            assert(before.contains_key(node));
                            assert(label_fits(
                                before[node][a],
                                self.weights(),
                                self.hidden_weights(),
                            ));
                        }
                    }
                } else {
                    assert(before.contains_key(n));
                }
            }
            assert forall|x: LabelData<NodeId>| #[trigger]
                self.waiting().contains(x) implies label_fits(
                x,
                self.weights(),
                self.hidden_weights(),
            ) by {
                assert(old(self).waiting().contains(x));
            }
        }
        if added {
            if self.enable_limit && label.values.len() >= 2 {
                let g: &MLCGraph = self.graph;
                let tags = node_tags(g, node);
                let cost = label.values[1];
                let time = label.values[0];
                assert forall|i: int| 0 <= i < tags@.len() implies self.limits.frontiers().contains_key(
                    #[trigger] tags@[i],
                ) by {
                    assert(self.frontiers().contains_key(
                        graph_nodes(self.graph())[node as int][i],
                    ));
                }
                update_limits(&mut self.limits, tags, cost, time);
            }
            self.queue.push(label);
            proof {
                assert forall|x: LabelData<NodeId>| #[trigger]
                    self.waiting().contains(x) implies label_fits(
                    x,
                    self.weights(),
                    self.hidden_weights(),
                ) by {
                    if x != l {
                        assert(old(self).waiting().contains(x));
                    }
                }
            }
        }
        added
    }

    /// The label that `label` gives along `edge`: its costs are the sums of
    /// the label's costs and the edge's weights, and then it goes through the
    /// label update, where one is set. What the update gives is refused
    /// where it is at another node or has another number of costs.
    pub fn extend(&self, label: &Label<NodeId>, edge: usize) -> (r: Result<Label<NodeId>, MLCError>)
        requires
            self.wf(),
            is_edge(self.graph(), edge as int),
            label_fits(label@, self.weights(), self.hidden_weights()),
        ensures
            r matches Err(MLCError::WeightOverflow(_)) <==> !(fits(
                sum_along(label@.values, edge_weights(self.graph(), edge as int)),
            ) && fits(
                sum_along(label@.hidden_values, edge_hidden_weights(self.graph(), edge as int)),
            )),
            r is Ok <==> fits(sum_along(label@.values, edge_weights(self.graph(), edge as int)))
                && fits(
                sum_along(label@.hidden_values, edge_hidden_weights(self.graph(), edge as int)),
            ) && self.along(label@, edge as int).node_id == edge_target(self.graph(), edge as int)
                && label_fits(
                self.along(label@, edge as int),
                self.weights(),
                self.hidden_weights(),
            ),
            match r {
                Ok(l) => {
                    &&& l@ == self.along(label@, edge as int)
                    &&& label_fits(l@, self.weights(), self.hidden_weights())
                    &&& l@.node_id == edge_target(self.graph(), edge as int)
                    &&& l@.node_id < graph_nodes(self.graph()).len()
                    &&& self.plain() ==> extension(
                        label@,
                        edge_weights(self.graph(), edge as int),
                        edge_hidden_weights(self.graph(), edge as int),
                        l@.node_id,
                        self.paths_disabled(),
                        l@,
                    )
                },
                Err(MLCError::WeightOverflow(n)) => n == label@.node_id,
                Err(MLCError::InvalidLabelUpdate(n)) => self.has_update() && !self.plain() && n
                    == edge_target(self.graph(), edge as int),
                Err(_) => false,
            },
    {
        let g: &MLCGraph = self.graph;
        let weight = edge_weight(g, edge);
        let ends = edge_endpoints(g, edge);
        let target = ends.1;
        let extended = match label.try_new_along(weight, target, self.disable_paths) {
            Some(l) => l,
            None => {
                return Err(MLCError::WeightOverflow(label.node_id));
            },
        };
        assert(edge_weights(self.graph(), edge as int).len() == self.weights());
        assert(label_fits(extended@, self.weights(), self.hidden_weights()));
        assert(rewrite(self.update_func(), label@, extended@) == self.along(label@, edge as int));
        match &self.update_label_func {
            None => Ok(extended),
            Some(f) => {
                let updated = f.update(label, &extended);
                accept_update(updated, target, self.weight_length, self.hidden_weights_length)
            },
        }
    }

    /// Whether limits are on and `label`, which has two costs, is exceeded:
    /// every category holds a pair that is no larger in cost and time.
    pub fn exceeds_limit(&mut self, label: &Label<NodeId>) -> (r: bool)
        requires
            old(self).wf(),
            old(self).frontiers().dom().len() > 0,
        ensures
            final(self).wf(),
            final(self).same_setup(old(self)),
            final(self).same_search(old(self)),
            final(self).popped() == old(self).popped(),
            r == (label@.values.len() == 2 && crate::limits::exceeded(
                old(self).frontiers(),
                label@.values[1],
                label@.values[0],
            )),
    {
        if label.values.len() != 2 {
            return false;
        }
        let cost = label.values[1];
        let time = label.values[0];
        self.limits.is_limit_exceeded(cost, time)
    }

    /// Limits are on, and `l` has two costs and is exceeded.
    pub open spec fn is_exceeded(&self, l: LabelData<NodeId>) -> bool {
        &&& self.limit_enabled()
        &&& l.values.len() == 2
        &&& crate::limits::exceeded(self.frontiers(), l.values[1], l.values[0])
    }

    /// Every label of a bag waits to be expanded, is done with, or is
    /// exceeded.
    pub open spec fn calm(&self) -> bool {
        calm(
            self.graph(),
            self.update_func(),
            self.paths_disabled(),
            self.bags_view(),
            self.waiting(),
            self.frontiers(),
            self.limit_enabled(),
        )
    }

    /// What `l` gives along every edge that leaves its node, after the label
    /// update, is covered by the bag of the node that the edge reaches.
    pub open spec fn closed_by(&self, l: LabelData<NodeId>) -> bool {
        closed_by(self.graph(), self.update_func(), self.paths_disabled(), self.bags_view(), l)
    }

    /// The label `l` is passed over as stale: such labels are passed over,
    /// and the bag of the node of `l` holds the costs of `l` no more.
    pub open spec fn is_stale(&self, l: LabelData<NodeId>) -> bool {
        &&& self.skips_stale()
        &&& self.bags_view().contains_key(l.node_id)
        &&& forall|i: int|
            0 <= i < self.bags_view()[l.node_id].len() ==> (
            #[trigger] self.bags_view()[l.node_id][i]).values != l.values
    }

    /// Expands `label`, which was taken from the waiting labels. A label that
    /// is exceeded is dropped, and so is one whose costs its node's bag holds
    /// no more, unless that is switched off. Else the label is extended along
    /// every edge that leaves its node, and each of these labels is offered
    /// to the bag of the node it reaches.
    pub fn step(&mut self, label: Label<NodeId>) -> (r: Result<(), MLCError>)
        requires
            old(self).wf(),
            label_fits(label@, old(self).weights(), old(self).hidden_weights()),
            old(self).limit_enabled() ==> old(self).frontiers().dom().len() > 0,
        ensures
            final(self).wf(),
            final(self).same_setup(old(self)),
            final(self).popped() == old(self).popped(),
            final(self).frontiers().dom() == old(self).frontiers().dom(),
            !old(self).limit_enabled() ==> final(self).frontiers() == old(self).frontiers(),
            covers_more(old(self).bags_view(), final(self).bags_view()),
            keeps_nodes(old(self).bags_view(), final(self).bags_view()),
            homeless_before(old(self).waiting(), final(self).waiting(), final(self).bags_view()),
            old(self).plain() ==> grown_from(
                old(self).graph(),
                old(self).bags_view(),
                old(self).waiting(),
                label@,
                final(self).bags_view(),
                final(self).waiting(),
                old(self).paths_disabled(),
            ),
            forall|x: LabelData<NodeId>| #[trigger]
                final(self).waiting().contains(x) ==> old(self).waiting().contains(x) || (
                old(self).plain() ==> lex_le(label@.values, x.values)),
            r is Ok ==> final(self).open_points() < old(self).open_points() || (
            final(self).open_points() == old(self).open_points() && final(self).waiting().len()
                == old(self).waiting().len()),
            r is Ok && old(self).plain() && !old(self).limit_enabled() && settled(
                old(self).graph(),
                old(self).bags_view(),
                old(self).waiting().insert(label@),
            ) ==> final(self).settled(),
            old(self).is_exceeded(label@) || old(self).is_stale(label@) ==> r is Ok
                && final(self).same_search(old(self)),
            tighter(old(self).frontiers(), final(self).frontiers()),
            grown_by(
                old(self).graph(),
                old(self).update_func(),
                old(self).paths_disabled(),
                old(self).bags_view(),
                old(self).waiting(),
                label@,
                final(self).bags_view(),
                final(self).waiting(),
            ),
            r is Ok && calm(
                old(self).graph(),
                old(self).update_func(),
                old(self).paths_disabled(),
                old(self).bags_view(),
                old(self).waiting().insert(label@),
                old(self).frontiers(),
                old(self).limit_enabled(),
            ) ==> final(self).calm(),
            r is Ok && !old(self).is_exceeded(label@) && !old(self).is_stale(label@)
                ==> final(self).closed_by(label@),
            r is Ok && old(self).plain() && !old(self).is_exceeded(label@) && !old(
                self,
            ).is_stale(label@) ==> closed(
                old(self).graph(),
                final(self).bags_view(),
                label@.node_id as int,
                label@.values,
            ),
            !old(self).is_exceeded(label@) && !old(self).bags_view().contains_key(label@.node_id)
                ==> r is Err && r->Err_0 is UnknownNodeId && final(self).same_search(old(self)),
            match r {
                Ok(()) => true,
                Err(MLCError::UnknownNodeId(n)) => n == label@.node_id
                    && !old(self).bags_view().contains_key(n) && !old(self).is_exceeded(label@),
                Err(MLCError::WeightOverflow(n)) => n == label@.node_id && exists|e: int|
                    overflows(old(self).graph(), label@, e),
                Err(MLCError::InvalidLabelUpdate(n)) => old(self).has_update(),
                Err(_) => false,
            },
    {
        broadcast use vstd::std_specs::hash::group_hash_axioms;

        let ghost frontiers0 = self.frontiers();
        let ghost was_calm = calm(
            self.graph(),
            self.update_func(),
            self.paths_disabled(),
            self.bags_view(),
            self.waiting().insert(label@),
            self.frontiers(),
            self.limit_enabled(),
        );
        if self.enable_limit && self.exceeds_limit(&label) {
            proof {
                if was_calm {
                    lemma_taken_calms(
                        self.graph(),
                        self.update_func(),
                        self.paths_disabled(),
                        self.limit_enabled(),
                        self.bags_view(),
                        self.waiting(),
                        frontiers0,
                        self.bags_view(),
                        self.waiting(),
                        frontiers0,
                        label@,
                    );
                }
            }
            return Ok(());
        }
        let node = label.node_id;
        let held = match self.bags.get(&node) {
            Some(bag) => holds_values(bag, &label),
            None => {
                return Err(MLCError::UnknownNodeId(node));
            },
        };
        let ghost bags0 = self.bags_view();
        let ghost waiting0 = self.waiting();
        if self.skip_stale && !held {
            proof {
                if settled(self.graph(), bags0, waiting0.insert(label@)) {
                    lemma_dropped_settles(self.graph(), bags0, waiting0, label@);
                }
                if was_calm {
                    assert(bag_at(bags0, node as int) == bags0[node]);
                    lemma_taken_calms(
                        self.graph(),
                        self.update_func(),
                        self.paths_disabled(),
                        self.limit_enabled(),
                        bags0,
                        waiting0,
                        frontiers0,
                        bags0,
                        waiting0,
                        frontiers0,
                        label@,
                    );
                }
            }
            return Ok(());
        }
        let g: &MLCGraph = self.graph;
        if node >= node_count(g) {
            // no edge leaves a node that the graph does not have
            proof {
                if settled(self.graph(), bags0, waiting0.insert(label@)) {
                    lemma_expanded_settles(
                        self.graph(),
                        bags0,
                        waiting0,
                        bags0,
                        waiting0,
                        label@,
                    );
                }
                if was_calm {
                    lemma_taken_calms(
                        self.graph(),
                        self.update_func(),
                        self.paths_disabled(),
                        self.limit_enabled(),
                        bags0,
                        waiting0,
                        frontiers0,
                        bags0,
                        waiting0,
                        frontiers0,
                        label@,
                    );
                }
            }
            return Ok(());
        }
        let edges = out_edges(g, node);
        let ghost start_points = self.open_points();
        let ghost start_waiting = self.waiting().len();
        let mut j: usize = 0;
        while j < edges.len()
            invariant
                j <= edges.len(),
                !old(self).is_exceeded(label@),
                !old(self).is_stale(label@),
                old(self).bags_view().contains_key(label@.node_id),
                self.wf(),
                self.same_setup(old(self)),
                self.popped() == old(self).popped(),
                g == self.graph,
                node == label@.node_id,
                self.frontiers().dom() == old(self).frontiers().dom(),
                !self.limit_enabled() ==> self.frontiers() == old(self).frontiers(),
                label_fits(label@, self.weights(), self.hidden_weights()),
                forall|i: int|
                    0 <= i < edges@.len() ==> is_edge(self.graph(), (#[trigger] edges@[i]) as int),
                self.open_points() < start_points || (self.open_points() == start_points
                    && self.waiting().len() == start_waiting),
                bags0 == old(self).bags_view(),
                waiting0 == old(self).waiting(),
                keeps_nodes(bags0, self.bags_view()),
                homeless_before(waiting0, self.waiting(), self.bags_view()),
                self.plain() ==> grown_from(
                    self.graph(),
                    bags0,
                    waiting0,
                    label@,
                    self.bags_view(),
                    self.waiting(),
                    self.paths_disabled(),
                ),
                forall|i: int|
                    0 <= i < edges@.len() ==> edge_source(self.graph(), (#[trigger] edges@[i]) as int)
                        == node,
                covers_more(bags0, self.bags_view()),
                kept_or_waiting(bags0, self.bags_view(), self.waiting()),
                kept_or_pushed(bags0, self.bags_view(), self.waiting()),
                grown_by(
                    self.graph(),
                    self.update_func(),
                    self.paths_disabled(),
                    bags0,
                    waiting0,
                    label@,
                    self.bags_view(),
                    self.waiting(),
                ),
                frontiers0 == old(self).frontiers(),
                tighter(frontiers0, self.frontiers()),
                was_calm == calm(
                    self.graph(),
                    self.update_func(),
                    self.paths_disabled(),
                    bags0,
                    waiting0.insert(label@),
                    frontiers0,
                    self.limit_enabled(),
                ),
                forall|i: int|
                    0 <= i < j ==> bag_covers(
                        bag_at(self.bags_view(), edge_target(self.graph(), edges@[i] as int)),
                        unbounded(self.along(label@, (#[trigger] edges@[i]) as int).values),
                    ),
                forall|x: LabelData<NodeId>| #[trigger]
                    waiting0.contains(x) ==> self.waiting().contains(x),
                forall|x: LabelData<NodeId>| #[trigger]
                    self.waiting().contains(x) ==> waiting0.contains(x) || (self.plain()
                        ==> lex_le(label@.values, x.values)),
                self.plain() ==> forall|i: int|
                    0 <= i < j ==> bag_covers(
                        bag_at(self.bags_view(), edge_target(self.graph(), edges@[i] as int)),
                        #[trigger] sum_along(
                            label@.values,
                            edge_weights(self.graph(), edges@[i] as int),
                        ),
                    ),
            decreases edges.len() - j,
        {
            let extended = match self.extend(&label, edges[j]) {
                Ok(l) => l,
                Err(e) => {
                    proof {
                        if e is WeightOverflow {
                            assert(overflows(self.graph(), label@, edges@[j as int] as int));
                        }
                    }
                    return Err(e);
                },
            };
            let ghost bags1 = self.bags_view();
            let ghost waiting1 = self.waiting();
            let ghost frontiers1 = self.frontiers();
            proof {
                lemma_offer_measure(
                    bags1,
                    extended@,
                    self.weights(),
                    self.hidden_weights(),
                    graph_nodes(self.graph()).len(),
                );
            }
            let added = self.offer(extended);
            proof {
                assert(made(
                    self.graph(),
                    self.update_func(),
                    self.paths_disabled(),
                    label@,
                    extended@,
                )) by {
                    let e = edges@[j as int] as int;
                    assert(is_edge(self.graph(), e) && edge_source(self.graph(), e)
                        == label@.node_id && !overflows(self.graph(), label@, e) && extended@
                        == along(
                        self.graph(),
                        self.update_func(),
                        self.paths_disabled(),
                        label@,
                        e,
                    ));
                }
                lemma_offer_grows_by(
                    self.graph(),
                    self.update_func(),
                    self.paths_disabled(),
                    bags0,
                    waiting0,
                    label@,
                    bags1,
                    waiting1,
                    self.bags_view(),
                    self.waiting(),
                    extended@,
                );
                lemma_offer_pushed(
                    bags0,
                    bags1,
                    waiting1,
                    self.bags_view(),
                    self.waiting(),
                    extended@,
                );
                if self.frontiers() != frontiers1 {
                    let tags = graph_nodes(self.graph())[extended@.node_id as int];
                    assert forall|t: int| 0 <= t < tags.len() implies frontiers1.contains_key(
                        #[trigger] tags[t],
                    ) by {
                        assert(frontiers1.contains_key(
                            graph_nodes(self.graph())[extended@.node_id as int][t],
                        ));
                    }
                    lemma_with_limits_tighter(
                        frontiers1,
                        tags,
                        extended@.values[1],
                        extended@.values[0],
                    );
                }
                assert forall|c: Category, x: u64, y: u64|
                    frontiers0.contains_key(c) && covers(frontiers0[c], x, y) implies #[trigger] covers(
                    self.frontiers()[c],
                    x,
                    y,
                ) by {
                    assert(covers(frontiers1[c], x, y));
                }
                if self.plain() {
                    let e = edges@[j as int] as int;
                    assert(is_edge(self.graph(), e) && edge_source(self.graph(), e)
                        == label@.node_id && edge_target(self.graph(), e) == extended@.node_id);
                    assert(continues(self.graph(), label@, extended@, self.paths_disabled()));
                    lemma_offer_grows(
                        self.graph(),
                        bags0,
                        waiting0,
                        label@,
                        bags1,
                        waiting1,
                        self.bags_view(),
                        self.waiting(),
                        extended@,
                        self.paths_disabled(),
                    );
                }
                lemma_offer_progress(
                    bags0,
                    bags1,
                    waiting1,
                    self.bags_view(),
                    self.waiting(),
                    extended@,
                    self.weights(),
                    self.hidden_weights(),
                );
                assert forall|x: LabelData<NodeId>| #[trigger]
                    self.waiting().contains(x) implies self.bags_view().contains_key(x.node_id)
                    || waiting0.contains(x) by {
                    if x != extended@ {
                        assert(waiting1.contains(x));
                        if bags1.contains_key(x.node_id) {
                            assert(self.bags_view().contains_key(x.node_id));
                        }
                    }
                }
                assert forall|x: LabelData<NodeId>| #[trigger]
                    self.waiting().contains(x) implies waiting0.contains(x) || (
                self.plain() ==> lex_le(label@.values, x.values)) by {
                    if x != extended@ {
                        assert(waiting1.contains(x));
                    } else if self.plain() {
                        let w = edge_weights(self.graph(), edges@[j as int] as int);
                        assert(w.len() == self.weights());
                        lemma_sum_lex_le(label@.values, w, extended@.values);
                    }
                }
                assert forall|i: int| 0 <= i < j + 1 implies bag_covers(
                    bag_at(self.bags_view(), edge_target(self.graph(), edges@[i] as int)),
                    unbounded(self.along(label@, (#[trigger] edges@[i]) as int).values),
                ) by {
                    if i < j {
                        assert(bag_covers(
                            bag_at(bags1, edge_target(self.graph(), edges@[i] as int)),
                            unbounded(self.along(label@, edges@[i] as int).values),
                        ));
                    }
                }
                if self.plain() {
                    let w = edge_weights(self.graph(), edges@[j as int] as int);
                    let sum = sum_along(label@.values, w);
                    assert(w.len() == self.weights());
                    assert(unbounded(extended@.values) =~= sum);
                    assert forall|i: int| 0 <= i < j + 1 implies bag_covers(
                        bag_at(self.bags_view(), edge_target(self.graph(), edges@[i] as int)),
                        #[trigger] sum_along(
                            label@.values,
                            edge_weights(self.graph(), edges@[i] as int),
                        ),
                    ) by {
                        if i < j {
                            assert(bag_covers(
                                bag_at(bags1, edge_target(self.graph(), edges@[i] as int)),
                                sum_along(
                                    label@.values,
                                    edge_weights(self.graph(), edges@[i] as int),
                                ),
                            ));
                        }
                    }
                }
            }
            j += 1;
        }
        proof {
            if self.plain() {
                assert forall|e: int|
                    is_edge(self.graph(), e) && #[trigger] edge_source(self.graph(), e)
                        == node implies bag_covers(
                    bag_at(self.bags_view(), edge_target(self.graph(), e)),
                    sum_along(label@.values, edge_weights(self.graph(), e)),
                ) by {
                    let i = choose|i: int| 0 <= i < edges@.len() && edges@[i] == e;
                    assert(bag_covers(
                        bag_at(self.bags_view(), edge_target(self.graph(), edges@[i] as int)),
                        sum_along(label@.values, edge_weights(self.graph(), edges@[i] as int)),
                    ));
                }
            }
            assert forall|e: int|
                is_edge(self.graph(), e) && #[trigger] edge_source(self.graph(), e)
                    == node implies bag_covers(
                bag_at(self.bags_view(), edge_target(self.graph(), e)),
                unbounded(self.along(label@, e).values),
            ) by {
                let i = choose|i: int| 0 <= i < edges@.len() && edges@[i] == e;
                assert(bag_covers(
                    bag_at(self.bags_view(), edge_target(self.graph(), edges@[i] as int)),
                    unbounded(self.along(label@, edges@[i] as int).values),
                ));
            }
            assert(self.closed_by(label@));
            if was_calm {
                lemma_taken_calms(
                    self.graph(),
                    self.update_func(),
                    self.paths_disabled(),
                    self.limit_enabled(),
                    bags0,
                    waiting0,
                    frontiers0,
                    self.bags_view(),
                    self.waiting(),
                    self.frontiers(),
                    label@,
                );
            }
            if self.plain() && settled(self.graph(), bags0, waiting0.insert(label@)) {
                lemma_expanded_settles(
                    self.graph(),
                    bags0,
                    waiting0,
                    self.bags_view(),
                    self.waiting(),
                    label@,
                );
            }
        }
        Ok(())
    }

    /// The number of cost vectors that the bags of the graph's nodes do not
    /// dominate yet.
    pub open spec fn open_points(&self) -> nat {
        open_points(self.bags_view(), self.weights(), graph_nodes(self.graph()).len())
    }

    /// Whether a run can begin: it is refused where limits are on and no
    /// category holds a pair, and where no label waits. The record of the
    /// labels that were taken from the waiting labels begins anew.
    pub fn start(&mut self) -> (r: Result<(), MLCError>)
        requires
            old(self).wf(),
        ensures
            final(self).wf(),
            final(self).same_setup(old(self)),
            final(self).same_search(old(self)),
            final(self).popped() == Seq::<Seq<u64>>::empty(),
            match r {
                Ok(()) => {
                    &&& old(self).waiting().len() > 0
                    &&& old(self).limit_enabled() ==> old(self).frontiers().dom().len() > 0
                },
                Err(MLCError::LimitsUninitialized) => {
                    &&& old(self).limit_enabled()
                    &&& old(self).frontiers().dom().len() == 0
                },
                Err(MLCError::EmptyStartingQueue) => {
                    &&& old(self).waiting().len() == 0
                    &&& !(old(self).limit_enabled() && old(self).frontiers().dom().len() == 0)
                },
                Err(_) => false,
            },
    {
        broadcast use vstd::std_specs::hash::group_hash_axioms;

        self.popped = Ghost(Seq::empty());
        if self.enable_limit && !self.limits.is_initialized() {
            assert(self.frontiers().dom().len() == 0) by {
                if self.frontiers().dom().len() > 0 {
                    assert forall|c: Category| self.frontiers().contains_key(c) implies (
                    #[trigger] self.frontiers()[c]).len() > 0 by {}
                }
            }
            return Err(MLCError::LimitsUninitialized);
        }
        if self.queue.is_empty() {
            return Err(MLCError::EmptyStartingQueue);
        }
        Ok(())
    }

    /// Takes a label that comes first in lexicographic order from the
    /// waiting labels, and expands it as `step` does. The result is `false`
    /// where no label waits.
    pub fn advance(&mut self) -> (r: Result<bool, MLCError>)
        requires
            old(self).wf(),
            old(self).limit_enabled() ==> old(self).frontiers().dom().len() > 0,
        ensures
            final(self).wf(),
            final(self).same_setup(old(self)),
            final(self).frontiers().dom() == old(self).frontiers().dom(),
            !old(self).limit_enabled() ==> final(self).frontiers() == old(self).frontiers(),
            covers_more(old(self).bags_view(), final(self).bags_view()),
            keeps_nodes(old(self).bags_view(), final(self).bags_view()),
            homeless_before(old(self).waiting(), final(self).waiting(), final(self).bags_view()),
            r matches Ok(false) ==> old(self).waiting().len() == 0 && final(self).same_search(
                old(self),
            ) && final(self).popped() == old(self).popped(),
            !(r matches Ok(false)) ==> old(self).waiting().len() > 0 && taken_first(
                old(self).waiting(),
                old(self).popped(),
                final(self).popped(),
            ),
            !(r matches Ok(false)) ==> forall|x: LabelData<NodeId>| #[trigger]
                final(self).waiting().contains(x) ==> old(self).waiting().contains(x) || (
                old(self).plain() ==> lex_le(final(self).popped().last(), x.values)),
            !(r matches Ok(false)) && old(self).plain() ==> exists|l: LabelData<NodeId>| #[trigger]
                old(self).waiting().contains(l) && grown_from(
                    old(self).graph(),
                    old(self).bags_view(),
                    old(self).waiting(),
                    l,
                    final(self).bags_view(),
                    final(self).waiting(),
                    old(self).paths_disabled(),
                ),
            r matches Ok(true) ==> final(self).open_points() < old(self).open_points() || (
            final(self).open_points() == old(self).open_points() && final(self).waiting().len()
                < old(self).waiting().len()),
            r matches Ok(true) && old(self).settled() && old(self).plain() && !old(
                self,
            ).limit_enabled() ==> final(self).settled(),
            tighter(old(self).frontiers(), final(self).frontiers()),
            !(r matches Ok(false)) ==> exists|l: LabelData<NodeId>| #[trigger]
                old(self).waiting().contains(l) && grown_by(
                    old(self).graph(),
                    old(self).update_func(),
                    old(self).paths_disabled(),
                    old(self).bags_view(),
                    old(self).waiting(),
                    l,
                    final(self).bags_view(),
                    final(self).waiting(),
                ),
            r matches Ok(true) && old(self).calm() ==> final(self).calm(),
            r matches Ok(true) ==> exists|l: LabelData<NodeId>| #[trigger]
                old(self).waiting().contains(l) && l.values == final(self).popped().last() && (old(
                    self,
                ).is_exceeded(l) || old(self).is_stale(l) || (final(self).closed_by(l) && (old(
                    self,
                ).plain() ==> closed(
                    old(self).graph(),
                    final(self).bags_view(),
                    l.node_id as int,
                    l.values,
                )))),
            match r {
                Ok(_) => true,
                Err(MLCError::UnknownNodeId(n)) => exists|l: LabelData<NodeId>| #[trigger]
                    old(self).waiting().contains(l) && l.node_id == n && !old(
                        self,
                    ).bags_view().contains_key(n),
                Err(MLCError::WeightOverflow(n)) => exists|l: LabelData<NodeId>, e: int|
                    old(self).waiting().contains(l) && l.node_id == n && #[trigger] overflows(
                        old(self).graph(),
                        l,
                        e,
                    ),
                Err(MLCError::InvalidLabelUpdate(_)) => old(self).has_update(),
                Err(_) => false,
            },
    {
        let ghost before = self.waiting();
        let ghost trace = self.popped();
        let popped = self.queue.pop();
        if popped.is_none() {
            return Ok(false);
        }
        let label = popped.unwrap();
        self.popped = Ghost(trace.push(label@.values));
        proof {
            assert(before.contains(label@));
            assert(trace.push(label@.values).drop_last() =~= trace);
            assert forall|x: LabelData<NodeId>| #[trigger]
                self.waiting().contains(x) implies label_fits(
                x,
                self.weights(),
                self.hidden_weights(),
            ) by {
                assert(before.contains(x));
            }
            assert(before.len() == self.waiting().len() + 1);
            assert(before =~= self.waiting().insert(label@));
        }
        let ghost waiting1 = self.waiting();
        let ghost bags1 = self.bags_view();
        let r = self.step(label);
        proof {
            assert forall|x: LabelData<NodeId>| #[trigger]
                self.waiting().contains(x) implies self.bags_view().contains_key(x.node_id)
                || before.contains(x) by {
                if !self.bags_view().contains_key(x.node_id) {
                    assert(waiting1.contains(x));
                }
            }
            assert forall|x: LabelData<NodeId>| #[trigger]
                self.waiting().contains(x) implies before.contains(x) || (self.plain()
                ==> lex_le(self.popped().last(), x.values)) by {
                if !before.contains(x) {
                    assert(!waiting1.contains(x));
                }
            }
            if self.plain() {
                assert forall|x: LabelData<NodeId>| #[trigger]
                    self.waiting().contains(x) implies before.contains(x) || continues(
                    self.graph(),
                    label@,
                    x,
                    self.paths_disabled(),
                ) by {
                    if !before.contains(x) {
                        assert(!waiting1.contains(x));
                    }
                }
                assert(grown_from(
                    self.graph(),
                    bags1,
                    before,
                    label@,
                    self.bags_view(),
                    self.waiting(),
                    self.paths_disabled(),
                ));
            }
        }
        proof {
            assert forall|x: LabelData<NodeId>| #[trigger]
                self.waiting().contains(x) implies before.contains(x) || made(
                self.graph(),
                self.update_func(),
                self.paths_disabled(),
                label@,
                x,
            ) by {
                if !before.contains(x) {
                    assert(!waiting1.contains(x));
                }
            }
            assert(before.contains(label@) && grown_by(
                self.graph(),
                self.update_func(),
                self.paths_disabled(),
                bags1,
                before,
                label@,
                self.bags_view(),
                self.waiting(),
            ));
            if r is Ok {
                assert(before.contains(label@) && label@.values == self.popped().last());
                assert(old(self).is_exceeded(label@) || old(self).is_stale(label@) || (
                self.closed_by(label@) && (old(self).plain() ==> closed(
                    old(self).graph(),
                    self.bags_view(),
                    label@.node_id as int,
                    label@.values,
                ))));
            }
        }
        match r {
            Ok(()) => Ok(true),
            Err(e) => {
                proof {
                    if e is WeightOverflow {
                        let edge = choose|edge: int| overflows(self.graph(), label@, edge);
                        assert(before.contains(label@) && overflows(self.graph(), label@, edge));
                    }
                }
                Err(e)
            },
        }
    }

    /// Runs the search until no label waits, and gives the bags. It is
    /// refused where limits are on and no category holds a pair, and else
    /// where no label waits at the beginning. It stops with an error only
    /// where a label of the beginning waits at a node without a bag, where a
    /// cost of a label grows too large for a `u64` along an edge that leaves
    /// its node (without a label update, the label's costs are those of a path
    /// from a start label), or where the label update gives a label that does
    /// not fit.
    ///
    /// The bags that it gives are antichains, and they cover what the bags
    /// covered before. Every label of them is what edges of the graph, one
    /// after the other, make of a label of the beginning, the label update
    /// applied at every edge. Where the bags were calm before, they are calm
    /// after: what a label of a bag gives along an edge, after the label
    /// update, is covered by the bag of the node that the edge reaches,
    /// unless the label is exceeded. Without limits and without a label
    /// update that changes labels they are closed, and the result of the
    /// search. Without such an update, the labels were taken from the waiting
    /// labels in lexicographic order, and every label of the bags is what a
    /// path of the graph makes of a label of the beginning, in its costs, its
    /// hidden costs and its path. None of this depends on whether stale
    /// labels are passed over.
    pub fn run(&mut self) -> (r: Result<&Bags<usize>, MLCError>)
        requires
            old(self).wf(),
        ensures
            final(self).wf(),
            final(self).same_setup(old(self)),
            final(self).frontiers().dom() == old(self).frontiers().dom(),
            !old(self).limit_enabled() ==> final(self).frontiers() == old(self).frontiers(),
            covers_more(old(self).bags_view(), final(self).bags_view()),
            old(self).plain() ==> lex_sorted(final(self).popped()),
            old(self).plain() ==> sound(
                old(self).graph(),
                seeds_of(old(self).bags_view(), old(self).waiting()),
                final(self).bags_view(),
                final(self).waiting(),
            ),
            old(self).plain() ==> faithful(
                old(self).graph(),
                origins(old(self).bags_view(), old(self).waiting()),
                final(self).bags_view(),
                final(self).waiting(),
                old(self).paths_disabled(),
            ),
            tighter(old(self).frontiers(), final(self).frontiers()),
            all_traced(
                old(self).graph(),
                old(self).update_func(),
                old(self).paths_disabled(),
                origins(old(self).bags_view(), old(self).waiting()),
                final(self).bags_view(),
                final(self).waiting(),
            ),
            r is Ok && (old(self).calm() || (old(self).settled() && old(self).plain()))
                ==> final(self).calm(),
            r is Ok && old(self).settled() && old(self).plain() ==> forall|n: usize, i: int|
                final(self).bags_view().contains_key(n) && 0 <= i < final(self).bags_view()[n].len()
                    ==> closed(
                    final(self).graph(),
                    final(self).bags_view(),
                    n as int,
                    (#[trigger] final(self).bags_view()[n][i]).values,
                ) || final(self).is_exceeded(final(self).bags_view()[n][i]),
            match r {
                Ok(bags) => {
                    &&& bags_view(bags@) == final(self).bags_view()
                    &&& final(self).waiting().len() == 0
                    &&& old(self).waiting().len() > 0
                    &&& old(self).settled() && old(self).plain() && !old(self).limit_enabled()
                        ==> all_closed(final(self).graph(), final(self).bags_view())
                    &&& old(self).settled() && old(self).tidy() && old(self).plain() && !old(
                        self,
                    ).limit_enabled() ==> is_result(
                        final(self).graph(),
                        seeds_of(old(self).bags_view(), old(self).waiting()),
                        final(self).bags_view(),
                        final(self).weights(),
                    )
                },
                Err(MLCError::LimitsUninitialized) => {
                    &&& old(self).limit_enabled()
                    &&& old(self).frontiers().dom().len() == 0
                    &&& final(self).same_search(old(self))
                },
                Err(MLCError::EmptyStartingQueue) => {
                    &&& old(self).waiting().len() == 0
                    &&& !(old(self).limit_enabled() && old(self).frontiers().dom().len() == 0)
                    &&& final(self).same_search(old(self))
                },
                Err(MLCError::UnknownNodeId(n)) => exists|l: LabelData<NodeId>| #[trigger]
                    old(self).waiting().contains(l) && l.node_id == n && !old(
                        self,
                    ).bags_view().contains_key(n),
                Err(MLCError::WeightOverflow(n)) => exists|l: LabelData<NodeId>, e: int|
                    {
                        &&& #[trigger] overflows(old(self).graph(), l, e)
                        &&& l.node_id == n
                        &&& label_fits(l, old(self).weights(), old(self).hidden_weights())
                        &&& old(self).plain() ==> walked(
                            old(self).graph(),
                            origins(old(self).bags_view(), old(self).waiting()),
                            old(self).paths_disabled(),
                            l,
                        )
                    },
                Err(MLCError::InvalidLabelUpdate(_)) => old(self).has_update(),
                Err(_) => false,
            },
            old(self).limit_enabled() && old(self).frontiers().dom().len() == 0 ==> r matches Err(
                MLCError::LimitsUninitialized,
            ),
            !(old(self).limit_enabled() && old(self).frontiers().dom().len() == 0) && old(
                self,
            ).waiting().len() == 0 ==> r matches Err(MLCError::EmptyStartingQueue),
    {
        let ghost was_calm = self.calm() || (self.settled() && self.plain());
        proof {
            if self.settled() && self.plain() {
                lemma_settled_is_calm(
                    self.graph(),
                    self.update_func(),
                    self.paths_disabled(),
                    self.limit_enabled(),
                    self.bags_view(),
                    self.waiting(),
                    self.frontiers(),
                );
            }
            lemma_origins_are_traced(
                self.graph(),
                self.update_func(),
                self.paths_disabled(),
                self.bags_view(),
                self.waiting(),
            );
            lemma_seeds_are_sound(self.graph(), self.bags_view(), self.waiting());
            lemma_origins_are_faithful(
                self.graph(),
                self.bags_view(),
                self.waiting(),
                self.paths_disabled(),
            );
        }
        match self.start() {
            Ok(()) => {},
            Err(e) => {
                return Err(e);
            },
        }
        loop
            invariant
                self.wf(),
                was_calm ==> self.calm(),
                all_traced(
                    self.graph(),
                    self.update_func(),
                    self.paths_disabled(),
                    origins(old(self).bags_view(), old(self).waiting()),
                    self.bags_view(),
                    self.waiting(),
                ),
                was_calm == (old(self).calm() || (old(self).settled() && old(self).plain())),
                tighter(old(self).frontiers(), self.frontiers()),
                self.plain() ==> sound(
                    self.graph(),
                    seeds_of(old(self).bags_view(), old(self).waiting()),
                    self.bags_view(),
                    self.waiting(),
                ),
                self.plain() ==> faithful(
                    self.graph(),
                    origins(old(self).bags_view(), old(self).waiting()),
                    self.bags_view(),
                    self.waiting(),
                    self.paths_disabled(),
                ),
                self.same_setup(old(self)),
                self.frontiers().dom() == old(self).frontiers().dom(),
                !self.limit_enabled() ==> self.frontiers() == old(self).frontiers(),
                self.limit_enabled() ==> self.frontiers().dom().len() > 0,
                old(self).waiting().len() > 0,
                covers_more(old(self).bags_view(), self.bags_view()),
                keeps_nodes(old(self).bags_view(), self.bags_view()),
                homeless_before(old(self).waiting(), self.waiting(), self.bags_view()),
                old(self).settled() && self.plain() && !self.limit_enabled()
                    ==> self.settled(),
                self.plain() ==> lex_sorted(self.popped()),
                self.plain() && self.popped().len() > 0 ==> forall|x: LabelData<NodeId>| #[trigger]
                    self.waiting().contains(x) ==> lex_le(self.popped().last(), x.values),
            ensures
                self.waiting().len() == 0,
            decreases self.open_points(), self.waiting().len(),
        {
            let ghost before = self.waiting();
            let ghost bags_before = self.bags_view();
            let ghost trace = self.popped();
            let ghost frontiers_before = self.frontiers();
            let went = self.advance();
            proof {
                assert forall|c: Category, x: u64, y: u64|
                    old(self).frontiers().contains_key(c) && covers(
                        old(self).frontiers()[c],
                        x,
                        y,
                    ) implies #[trigger] covers(self.frontiers()[c], x, y) by {
                    assert(covers(frontiers_before[c], x, y));
                }
                if !(went matches Ok(false)) {
                    let by = choose|l: LabelData<NodeId>| #[trigger]
                        before.contains(l) && grown_by(
                            self.graph(),
                            self.update_func(),
                            self.paths_disabled(),
                            bags_before,
                            before,
                            l,
                            self.bags_view(),
                            self.waiting(),
                        );
                    lemma_grown_is_traced(
                        self.graph(),
                        self.update_func(),
                        self.paths_disabled(),
                        origins(old(self).bags_view(), old(self).waiting()),
                        bags_before,
                        before,
                        by,
                        self.bags_view(),
                        self.waiting(),
                    );
                    let v = self.popped().last();
                    assert(self.popped() =~= trace.push(v));
                    if self.plain() {
                        let l = choose|l: LabelData<NodeId>| #[trigger]
                            before.contains(l) && l.values == v;
                        lemma_push_sorted(trace, v);
                        let from = choose|l: LabelData<NodeId>| #[trigger]
                            before.contains(l) && grown_from(
                                self.graph(),
                                bags_before,
                                before,
                                l,
                                self.bags_view(),
                                self.waiting(),
                                self.paths_disabled(),
                            );
                        assert(label_fits(from, self.weights(), self.hidden_weights()));
                        lemma_grown_is_sound(
                            self.graph(),
                            seeds_of(old(self).bags_view(), old(self).waiting()),
                            bags_before,
                            before,
                            from,
                            self.bags_view(),
                            self.waiting(),
                            self.paths_disabled(),
                        );
                        assert forall|e: int| is_edge(self.graph(), e) implies (
                        #[trigger] edge_hidden_weights(self.graph(), e)).len()
                            == from.hidden_values.len() by {
                            assert(edge_weights(self.graph(), e).len() == self.weights());
                        }
                        lemma_grown_is_faithful(
                            self.graph(),
                            origins(old(self).bags_view(), old(self).waiting()),
                            bags_before,
                            before,
                            from,
                            self.bags_view(),
                            self.waiting(),
                            self.paths_disabled(),
                        );
                    }
                    assert forall|x: LabelData<NodeId>| #[trigger]
                        self.waiting().contains(x) implies self.bags_view().contains_key(
                        x.node_id,
                    ) || old(self).waiting().contains(x) by {
                        if !self.bags_view().contains_key(x.node_id) {
                            assert(before.contains(x));
                            assert(!bags_before.contains_key(x.node_id));
                        }
                    }
                    if self.plain() {
                        assert forall|x: LabelData<NodeId>| #[trigger]
                            self.waiting().contains(x) implies lex_le(v, x.values) by {
                            if before.contains(x) {
                            }
                        }
                    }
                }
            }
            match went {
                Ok(more) => {
                    if !more {
                        break ;
                    }
                },
                Err(e) => {
                    proof {
                        if let MLCError::UnknownNodeId(n) = e {
                            let l = choose|l: LabelData<NodeId>| #[trigger]
                                before.contains(l) && l.node_id == n && !bags_before.contains_key(
                                    n,
                                );
                            assert(old(self).waiting().contains(l));
                        }
                        if let MLCError::WeightOverflow(n) = e {
                            let (l, edge) = choose|l: LabelData<NodeId>, edge: int|
                                before.contains(l) && l.node_id == n && #[trigger] overflows(
                                    self.graph(),
                                    l,
                                    edge,
                                );
                            assert(label_fits(l, self.weights(), self.hidden_weights()));
                            assert(overflows(old(self).graph(), l, edge));
                        }
                    }
                    return Err(e);
                },
            }
        }
        proof {
            if old(self).settled() && self.plain() {
                vstd::multiset::lemma_multiset_empty_len(self.waiting());
                assert forall|n: usize, i: int|
                    self.bags_view().contains_key(n) && 0 <= i < self.bags_view()[n].len() implies closed(
                    self.graph(),
                    self.bags_view(),
                    n as int,
                    (#[trigger] self.bags_view()[n][i]).values,
                ) || self.is_exceeded(self.bags_view()[n][i]) by {
                    let l = self.bags_view()[n][i];
                    assert(!waits(self.update_func(), self.waiting(), l));
                    assert(l.node_id == n);
                }
            }
            if old(self).settled() && self.plain() && !self.limit_enabled() {
                lemma_settled_without_waiting(self.graph(), self.bags_view(), self.waiting());
                if old(self).tidy() {
                    vstd::multiset::lemma_multiset_empty_len(self.waiting());
                    assert(self.waiting() =~= Multiset::empty());
                    lemma_search_gives_result(
                        self.graph(),
                        old(self).bags_view(),
                        old(self).waiting(),
                        self.bags_view(),
                        self.weights(),
                        self.hidden_weights(),
                    );
                }
            }
        }
        Ok(&self.bags)
    }

    /// The names and the bags of all nodes that have a bag in `bags`, with
    /// names in place of node indices. It is refused where no node map is set,
    /// and where a node has no name.
    pub fn translate_bags(&self, bags: &Bags<usize>) -> (r: Result<
        Vec<(String, Bag<String>)>,
        MLCError,
    >)
        ensures
            match r {
                Ok(t) => self.names() is Some && exists|nodes: Seq<NodeId>|
                    nodes.no_duplicates() && nodes.to_set() == bags_view(bags@).dom() && #[trigger] bags_named(
                        self.names()->0,
                        t@,
                        bags_view(bags@),
                        nodes,
                    ),
                Err(MLCError::NodeMapNotSet) => self.names() is None,
                Err(MLCError::UnknownNodeId(id)) => self.names() is Some && exists|
                    nodes: Seq<NodeId>,
                |
                    nodes.to_set() == bags_view(bags@).dom() && #[trigger] bags_nameless(
                        self.names()->0,
                        bags_view(bags@),
                        nodes,
                        id,
                    ),
                Err(_) => false,
            },
    {
        match &self.node_map {
            None => Err(MLCError::NodeMapNotSet),
            Some(node_map) => {
                let r = crate::translate::translate_bags(node_map, bags);
                proof {
                    let ids = node_ids(*node_map);
                    assert(self.names() == Some(ids));
                    if r is Ok {
                        let t = r->Ok_0@;
                        let nodes = choose|nodes: Seq<NodeId>|
                            nodes.no_duplicates() && nodes.to_set() == bags_view(bags@).dom()
                                && #[trigger] bags_named(ids, t, bags_view(bags@), nodes);
                        assert(bags_named(self.names()->0, t, bags_view(bags@), nodes));
                    } else if r->Err_0 is UnknownNodeId {
                        let id = r->Err_0->UnknownNodeId_0;
                        let nodes = choose|nodes: Seq<NodeId>|
                            nodes.to_set() == bags_view(bags@).dom() && #[trigger] bags_nameless(
                                ids,
                                bags_view(bags@),
                                nodes,
                                id,
                            );
                        assert(bags_nameless(self.names()->0, bags_view(bags@), nodes, id));
                    }
                }
                r
            },
        }
    }

    /// The text of the node map: a header line, and a line for every name
    /// with its index. `None` where no node map is set.
    pub fn node_map_as_csv(&self) -> (r: Option<Vec<u8>>)
        ensures
            r is Some <==> self.names() is Some,
            r is Some ==> exists|pairs: Seq<(String, usize)>|
                lists(self.names()->0, pairs) && r->0@ == node_map_header() + #[trigger] pair_lines(
                    pairs,
                ),
    {
        match &self.node_map {
            Some(node_map) => Some(format_node_map(node_map)),
            None => None,
        }
    }

    /// Whether the state of the search is to be written out while it runs.
    pub fn debug(&self) -> (r: bool)
        ensures
            r == self.debug_enabled(),
    {
        self.debug
    }

    /// The bags, as they are.
    pub fn bags(&self) -> (r: &Bags<usize>)
        ensures
            bags_view(r@) == self.bags_view(),
    {
        &self.bags
    }

    /// The number of labels that wait.
    pub fn queue_len(&self) -> (r: usize)
        ensures
            r == self.waiting().len(),
    {
        self.queue.len()
    }

    /// The graph, the bags, the waiting labels and the limits are those of
    /// `other`.
    pub open spec fn same_search(&self, other: &Self) -> bool {
        &&& self.graph() == other.graph()
        &&& self.weights() == other.weights()
        &&& self.hidden_weights() == other.hidden_weights()
        &&& self.bags_view() == other.bags_view()
        &&& self.waiting() == other.waiting()
        &&& self.frontiers() == other.frontiers()
    }

    /// The switches are those of `other`: the limits, and of the node map,
    /// the paths and the debug switch those that are asked for.
    pub open spec fn same_switches(&self, other: &Self, names: bool, paths: bool, debug: bool) -> bool {
        &&& self.limit_enabled() == other.limit_enabled()
        &&& self.skips_stale() == other.skips_stale()
        &&& names ==> self.names() == other.names()
        &&& paths ==> self.paths_disabled() == other.paths_disabled()
        &&& debug ==> self.debug_enabled() == other.debug_enabled()
    }
}

} // verus!
