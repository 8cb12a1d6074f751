//! Paths and their costs, and what the bags of a finished search hold of
//! them: for every path from a start label, a label that is no worse.

use crate::bag::{
    bag_dominates, bag_with, extension, holds, lemma_filter_origin, sum_along, survives,
    LabelData, NodeId,
};
use crate::graph::{
    edge_hidden_weights, edge_source, edge_target, edge_weights, is_edge, MLCGraph,
};
use crate::measure::{bag_at, uniform, BagsView};
use vstd::multiset::Multiset;
use vstd::prelude::*;

verus! {

/// The costs `v` as numbers without a bound.
pub open spec fn unbounded(v: Seq<u64>) -> Seq<int> {
    Seq::new(v.len(), |i: int| v[i] as int)
}

/// `a` has as many components as `c`, and none is larger.
pub open spec fn below(a: Seq<u64>, c: Seq<int>) -> bool {
    &&& a.len() == c.len()
    &&& forall|j: int| 0 <= j < a.len() ==> a[j] <= c[j]
}

/// Some label of `bag` is no worse than the costs `c`.
pub open spec fn bag_covers(bag: Seq<LabelData<NodeId>>, c: Seq<int>) -> bool {
    exists|i: int| 0 <= i < bag.len() && below(#[trigger] bag[i].values, c)
}

/// Every cost vector that a bag of `before` covers, the bag of that node in
/// `after` covers, too.
pub open spec fn covers_more(before: BagsView, after: BagsView) -> bool {
    forall|n: int, c: Seq<int>| #[trigger]
        bag_covers(bag_at(before, n), c) ==> bag_covers(bag_at(after, n), c)
}

/// A bag covers a vector of `u64` costs exactly where it dominates it.
pub proof fn lemma_covers_is_dominates(bag: Seq<LabelData<NodeId>>, v: Seq<u64>, k: nat)
    requires
        uniform(bag, k),
        v.len() == k,
    ensures
        bag_covers(bag, unbounded(v)) == bag_dominates(bag, v),
{
    if bag_covers(bag, unbounded(v)) {
        let i = choose|i: int| 0 <= i < bag.len() && below(#[trigger] bag[i].values, unbounded(v));
        assert forall|j: int| 0 <= j < bag[i].values.len() && j < v.len() implies bag[i].values[j]
            <= v[j] by {
            assert(unbounded(v)[j] == v[j]);
        }
        assert(crate::bag::dominates(bag[i].values, v));
    }
    if bag_dominates(bag, v) {
        let i = choose|i: int|
            0 <= i < bag.len() && crate::bag::dominates(#[trigger] bag[i].values, v);
        assert(below(bag[i].values, unbounded(v)));
    }
}

/// What a bag covers, it still covers after a label was offered to it; and
/// then it covers the costs of that label, too.
pub proof fn lemma_bag_with_covers(bag: Seq<LabelData<NodeId>>, label: LabelData<NodeId>, k: nat)
    requires
        uniform(bag, k),
        label.values.len() == k,
    ensures
        bag_covers(bag_with(bag, label), unbounded(label.values)),
        forall|c: Seq<int>| #[trigger]
            bag_covers(bag, c) ==> bag_covers(bag_with(bag, label), c),
{
    let after = bag_with(bag, label);
    if bag_dominates(bag, label.values) {
        lemma_covers_is_dominates(bag, label.values, k);
    } else {
        let pred = survives::<NodeId>(label.values);
        let kept = bag.filter(pred);
        lemma_filter_origin(bag, pred);
        assert(after[after.len() - 1] == label);
        assert(below(after[after.len() - 1].values, unbounded(label.values)));
        assert forall|c: Seq<int>| #[trigger] bag_covers(bag, c) implies bag_covers(after, c) by {
            let i = choose|i: int| 0 <= i < bag.len() && below(#[trigger] bag[i].values, c);
            if pred(bag[i]) {
                assert(kept.contains(bag[i]));
                let j = choose|j: int| 0 <= j < kept.len() && kept[j] == bag[i];
                assert(after[j] == bag[i]);
                assert(below(after[j].values, c));
            } else {
                assert(crate::bag::dominates(label.values, bag[i].values));
                assert(below(after[after.len() - 1].values, c));
            }
        }
    }
}

/// Every label that continues the costs `v` at node `n` along an edge is
/// covered by the bag of the node that the edge reaches.
pub open spec fn closed(g: MLCGraph, bags: BagsView, n: int, v: Seq<u64>) -> bool {
    forall|e: int|
        is_edge(g, e) && #[trigger] edge_source(g, e) == n ==> bag_covers(
            bag_at(bags, edge_target(g, e)),
            sum_along(v, edge_weights(g, e)),
        )
}

/// A label with the costs `v` waits at node `n`.
pub open spec fn pending(waiting: Multiset<LabelData<NodeId>>, n: usize, v: Seq<u64>) -> bool {
    exists|l: LabelData<NodeId>| #[trigger] waiting.contains(l) && l.node_id == n && l.values == v
}

/// Every label of a bag either waits to be expanded, or what continues it is
/// covered.
pub open spec fn settled(g: MLCGraph, bags: BagsView, waiting: Multiset<LabelData<NodeId>>) -> bool {
    forall|n: usize, i: int|
        bags.contains_key(n) && 0 <= i < bags[n].len() ==> pending(
            waiting,
            n,
            (#[trigger] bags[n][i]).values,
        ) || closed(g, bags, n as int, bags[n][i].values)
}

/// What continues a label of a bag is covered.
pub open spec fn all_closed(g: MLCGraph, bags: BagsView) -> bool {
    forall|n: usize, i: int|
        bags.contains_key(n) && 0 <= i < bags[n].len() ==> closed(
            g,
            bags,
            n as int,
            (#[trigger] bags[n][i]).values,
        )
}

/// Where no label waits, settled bags are closed.
pub proof fn lemma_settled_without_waiting(
    g: MLCGraph,
    bags: BagsView,
    waiting: Multiset<LabelData<NodeId>>,
)
    requires
        settled(g, bags, waiting),
        waiting.len() == 0,
    ensures
        all_closed(g, bags),
{
    assert forall|n: usize, i: int| bags.contains_key(n) && 0 <= i < bags[n].len() implies closed(
        g,
        bags,
        n as int,
        (#[trigger] bags[n][i]).values,
    ) by {
        if pending(waiting, n, bags[n][i].values) {
            let l = choose|l: LabelData<NodeId>| #[trigger]
                waiting.contains(l) && l.node_id == n && l.values == bags[n][i].values;
            assert(waiting.count(l) > 0);
            vstd::multiset::lemma_multiset_empty_len(waiting);
            assert(false);
        }
    }
}

/// What stays closed where bags cover more.
pub proof fn lemma_closed_stays(g: MLCGraph, before: BagsView, after: BagsView, n: int, v: Seq<u64>)
    requires
        closed(g, before, n, v),
        covers_more(before, after),
    ensures
        closed(g, after, n, v),
{
    assert forall|e: int| is_edge(g, e) && #[trigger] edge_source(g, e) == n implies bag_covers(
        bag_at(after, edge_target(g, e)),
        sum_along(v, edge_weights(g, e)),
    ) by {
        assert(bag_covers(bag_at(before, edge_target(g, e)), sum_along(v, edge_weights(g, e))));
    }
}

/// The edges `p`, one after the other, lead away from node `from`.
pub open spec fn is_path(g: MLCGraph, from: int, p: Seq<int>) -> bool
    decreases p.len(),
{
    if p.len() == 0 {
        true
    } else {
        &&& is_path(g, from, p.drop_last())
        &&& is_edge(g, p.last())
        &&& edge_source(g, p.last()) == path_end(g, from, p.drop_last())
    }
}

/// The node that the path `p` from `from` reaches.
pub open spec fn path_end(g: MLCGraph, from: int, p: Seq<int>) -> int {
    if p.len() == 0 {
        from
    } else {
        edge_target(g, p.last())
    }
}

/// The costs `c` and the weights `w`, added place by place.
pub open spec fn plus(c: Seq<int>, w: Seq<u64>) -> Seq<int> {
    Seq::new(c.len(), |i: int| c[i] + w[i])
}

/// The costs at the end of the path `p`, which begins with the costs `c`.
pub open spec fn path_cost(g: MLCGraph, c: Seq<int>, p: Seq<int>) -> Seq<int>
    decreases p.len(),
{
    if p.len() == 0 {
        c
    } else {
        plus(path_cost(g, c, p.drop_last()), edge_weights(g, p.last()))
    }
}

/// The bags of a finished search are complete: where the bag of a node
/// covers the costs `c`, the bag at the end of every path from that node
/// covers the costs of the path that begins with `c`.
pub proof fn lemma_paths_are_covered(
    g: MLCGraph,
    bags: BagsView,
    k: nat,
    from: int,
    c: Seq<int>,
    p: Seq<int>,
)
    requires
        forall|e: int| is_edge(g, e) ==> (#[trigger] edge_weights(g, e)).len() == k,
        forall|n: usize| #[trigger] bags.contains_key(n) ==> uniform(bags[n], k),
        all_closed(g, bags),
        bag_covers(bag_at(bags, from), c),
        is_path(g, from, p),
    ensures
        bag_covers(bag_at(bags, path_end(g, from, p)), path_cost(g, c, p)),
    decreases p.len(),
{
    if p.len() > 0 {
        let front = p.drop_last();
        let e = p.last();
        let mid = path_end(g, from, front);
        let cost = path_cost(g, c, front);
        lemma_paths_are_covered(g, bags, k, from, c, front);
        let bag = bag_at(bags, mid);
        let i = choose|i: int| 0 <= i < bag.len() && below(#[trigger] bag[i].values, cost);
        assert(bags.contains_key(mid as usize));
        assert(closed(g, bags, mid, bags[mid as usize][i].values));
        assert(edge_source(g, e) == mid);
        let reached = bag_at(bags, edge_target(g, e));
        let sum = sum_along(bag[i].values, edge_weights(g, e));
        assert(bag_covers(reached, sum));
        let j = choose|j: int| 0 <= j < reached.len() && below(#[trigger] reached[j].values, sum);
        let total = path_cost(g, c, p);
        assert(total == plus(cost, edge_weights(g, e)));
        assert(bag[i].values.len() == k);
        assert forall|x: int| 0 <= x < reached[j].values.len() implies reached[j].values[x]
            <= total[x] by {
            assert(reached[j].values[x] <= sum[x]);
            assert(sum[x] == bag[i].values[x] + edge_weights(g, e)[x]);
            assert(bag[i].values[x] <= cost[x]);
        }
        assert(below(reached[j].values, total));
    }
}

/// The label `x` continues the label `l` along an edge: the edge leads from
/// the node of `l` to the node of `x`, the costs of `x` are those of `l` with
/// the weights of the edge added, and the path of `x` is that of `l` and then
/// the node of `l`, or empty where paths are `off`.
pub open spec fn continues(g: MLCGraph, l: LabelData<NodeId>, x: LabelData<NodeId>, off: bool) -> bool {
    exists|e: int|
        is_edge(g, e) && #[trigger] edge_source(g, e) == l.node_id && edge_target(g, e)
            == x.node_id && extension(
            l,
            edge_weights(g, e),
            edge_hidden_weights(g, e),
            x.node_id,
            off,
            x,
        )
}

/// The bags and the waiting labels grew from those before by labels that
/// continue the label `l`: every other label was there before.
pub open spec fn grown_from(
    g: MLCGraph,
    bags0: BagsView,
    waiting0: Multiset<LabelData<NodeId>>,
    l: LabelData<NodeId>,
    bags: BagsView,
    waiting: Multiset<LabelData<NodeId>>,
    off: bool,
) -> bool {
    &&& forall|n: usize, i: int|
        bags.contains_key(n) && 0 <= i < bags[n].len() ==> (bags0.contains_key(n) && exists|a: int|
            0 <= a < bags0[n].len() && bags0[n][a] == (#[trigger] bags[n][i])) || continues(
            g,
            l,
            bags[n][i],
            off,
        )
    &&& forall|x: LabelData<NodeId>| #[trigger]
        waiting.contains(x) ==> waiting0.contains(x) || continues(g, l, x, off)
}

/// The start labels: the costs of the labels of the bags, and of the
/// waiting labels, each with its node.
pub open spec fn seeds_of(bags: BagsView, waiting: Multiset<LabelData<NodeId>>) -> Set<
    (NodeId, Seq<u64>),
> {
    Set::new(
        |s: (NodeId, Seq<u64>)|
            (bags.contains_key(s.0) && exists|i: int|
                0 <= i < bags[s.0].len() && (#[trigger] bags[s.0][i]).values == s.1) || pending(
                waiting,
                s.0,
                s.1,
            ),
    )
}

/// The costs `v` at node `n` are the costs of a path from a start label.
pub open spec fn reached(g: MLCGraph, seeds: Set<(NodeId, Seq<u64>)>, n: NodeId, v: Seq<u64>) -> bool {
    exists|from: NodeId, c: Seq<u64>, p: Seq<int>| #[trigger]
        starts(seeds, from, c, p) && is_path(g, from as int, p) && path_end(g, from as int, p)
            == n && path_cost(g, unbounded(c), p) == unbounded(v)
}

/// The path `p` begins at a start label.
pub open spec fn starts(seeds: Set<(NodeId, Seq<u64>)>, from: NodeId, c: Seq<u64>, p: Seq<int>) -> bool {
    seeds.contains((from, c))
}

/// The labels of the bags, and the waiting labels, hold the costs of paths
/// from the start labels.
pub open spec fn sound(
    g: MLCGraph,
    seeds: Set<(NodeId, Seq<u64>)>,
    bags: BagsView,
    waiting: Multiset<LabelData<NodeId>>,
) -> bool {
    &&& forall|n: usize, i: int|
        bags.contains_key(n) && 0 <= i < bags[n].len() ==> (#[trigger] bags[n][i]).node_id == n
            && reached(g, seeds, n, bags[n][i].values)
    &&& forall|x: LabelData<NodeId>| #[trigger]
        waiting.contains(x) ==> reached(g, seeds, x.node_id, x.values)
}

/// The start labels are reached by the path without an edge.
pub proof fn lemma_seeds_are_sound(g: MLCGraph, bags: BagsView, waiting: Multiset<LabelData<NodeId>>)
    requires
        forall|n: usize, i: int|
            bags.contains_key(n) && 0 <= i < bags[n].len() ==> (#[trigger] bags[n][i]).node_id == n,
    ensures
        sound(g, seeds_of(bags, waiting), bags, waiting),
{
    let seeds = seeds_of(bags, waiting);
    let none = Seq::<int>::empty();
    assert forall|n: usize, i: int| bags.contains_key(n) && 0 <= i < bags[n].len() implies (
    #[trigger] bags[n][i]).node_id == n && reached(g, seeds, n, bags[n][i].values) by {
        assert(seeds.contains((n, bags[n][i].values)));
        assert(starts(seeds, n, bags[n][i].values, none));
    }
    assert forall|x: LabelData<NodeId>| #[trigger] waiting.contains(x) implies reached(
        g,
        seeds,
        x.node_id,
        x.values,
    ) by {
        assert(pending(waiting, x.node_id, x.values));
        assert(seeds.contains((x.node_id, x.values)));
        assert(starts(seeds, x.node_id, x.values, none));
    }
}

/// A label that continues a label with the costs of a path has the costs of
/// a path.
pub proof fn lemma_continues_reached(
    g: MLCGraph,
    seeds: Set<(NodeId, Seq<u64>)>,
    l: LabelData<NodeId>,
    x: LabelData<NodeId>,
    off: bool,
)
    requires
        reached(g, seeds, l.node_id, l.values),
        continues(g, l, x, off),
        forall|e: int| is_edge(g, e) ==> (#[trigger] edge_weights(g, e)).len() == l.values.len(),
    ensures
        reached(g, seeds, x.node_id, x.values),
{
    let (from, c, p) = choose|from: NodeId, c: Seq<u64>, p: Seq<int>| #[trigger]
        starts(seeds, from, c, p) && is_path(g, from as int, p) && path_end(g, from as int, p)
            == l.node_id && path_cost(g, unbounded(c), p) == unbounded(l.values);
    let e = choose|e: int|
        is_edge(g, e) && #[trigger] edge_source(g, e) == l.node_id && edge_target(g, e)
            == x.node_id && extension(
            l,
            edge_weights(g, e),
            edge_hidden_weights(g, e),
            x.node_id,
            off,
            x,
        );
    let q = p.push(e);
    assert(q.drop_last() =~= p);
    assert(is_path(g, from as int, q));
    assert(edge_weights(g, e).len() == l.values.len());
    assert(path_cost(g, unbounded(c), q) =~= unbounded(x.values)) by {
        let w = edge_weights(g, e);
        let sum = sum_along(l.values, w);
        assert forall|j: int| 0 <= j < x.values.len() implies path_cost(g, unbounded(c), q)[j]
            == unbounded(x.values)[j] by {
            assert(x.values[j] == sum[j]);
            assert(unbounded(l.values)[j] == l.values[j]);
        }
    }
    assert(starts(seeds, from, c, q));
}

/// Bags and waiting labels that grew from sound ones by labels that continue
/// a waiting label are sound.
pub proof fn lemma_grown_is_sound(
    g: MLCGraph,
    seeds: Set<(NodeId, Seq<u64>)>,
    bags0: BagsView,
    waiting0: Multiset<LabelData<NodeId>>,
    l: LabelData<NodeId>,
    bags: BagsView,
    waiting: Multiset<LabelData<NodeId>>,
    off: bool,
)
    requires
        sound(g, seeds, bags0, waiting0),
        waiting0.contains(l),
        grown_from(g, bags0, waiting0, l, bags, waiting, off),
        forall|n: usize, i: int|
            bags.contains_key(n) && 0 <= i < bags[n].len() ==> (#[trigger] bags[n][i]).node_id == n,
        forall|e: int| is_edge(g, e) ==> (#[trigger] edge_weights(g, e)).len() == l.values.len(),
    ensures
        sound(g, seeds, bags, waiting),
{
    assert forall|n: usize, i: int| bags.contains_key(n) && 0 <= i < bags[n].len() implies (
    #[trigger] bags[n][i]).node_id == n && reached(g, seeds, n, bags[n][i].values) by {
        if continues(g, l, bags[n][i], off) {
            lemma_continues_reached(g, seeds, l, bags[n][i], off);
        } else {
            let a = choose|a: int| 0 <= a < bags0[n].len() && bags0[n][a] == bags[n][i];
            assert(reached(g, seeds, n, bags0[n][a].values));
        }
    }
    assert forall|x: LabelData<NodeId>| #[trigger] waiting.contains(x) implies reached(
        g,
        seeds,
        x.node_id,
        x.values,
    ) by {
        if !waiting0.contains(x) {
            lemma_continues_reached(g, seeds, l, x, off);
        }
    }
}

/// The nodes that the edges of the path `p` leave, one after the other.
pub open spec fn route(g: MLCGraph, p: Seq<int>) -> Seq<NodeId> {
    Seq::new(p.len(), |i: int| edge_source(g, p[i]) as usize)
}

/// The hidden costs at the end of the path `p`, which begins with the hidden
/// costs `c`.
pub open spec fn path_hidden_cost(g: MLCGraph, c: Seq<int>, p: Seq<int>) -> Seq<int>
    decreases p.len(),
{
    if p.len() == 0 {
        c
    } else {
        plus(path_hidden_cost(g, c, p.drop_last()), edge_hidden_weights(g, p.last()))
    }
}

/// The label `x` is what the path `p` makes of the label `s`: the path leads
/// from the node of `s` to the node of `x`, the costs and the hidden costs of
/// `x` are those of `s` with the weights of the path's edges added, and the
/// path of `x` is that of `s` and then the nodes that the edges leave. Where
/// paths are `off`, a label at the end of an edge has an empty path.
pub open spec fn follows(
    g: MLCGraph,
    s: LabelData<NodeId>,
    p: Seq<int>,
    off: bool,
    x: LabelData<NodeId>,
) -> bool {
    &&& is_path(g, s.node_id as int, p)
    &&& path_end(g, s.node_id as int, p) == x.node_id
    &&& path_cost(g, unbounded(s.values), p) == unbounded(x.values)
    &&& path_hidden_cost(g, unbounded(s.hidden_values), p) == unbounded(x.hidden_values)
    &&& x.path == if off && p.len() > 0 {
        Seq::<NodeId>::empty()
    } else {
        s.path + route(g, p)
    }
}

/// The labels with which a search begins: the labels of the bags and the
/// waiting labels.
pub open spec fn origins(bags: BagsView, waiting: Multiset<LabelData<NodeId>>) -> Set<
    LabelData<NodeId>,
> {
    Set::new(
        |s: LabelData<NodeId>|
            waiting.contains(s) || exists|n: usize, i: int|
                bags.contains_key(n) && 0 <= i < bags[n].len() && #[trigger] bags[n][i] == s,
    )
}

/// The label `x` is what some path makes of one of the labels `from`.
pub open spec fn walked(g: MLCGraph, from: Set<LabelData<NodeId>>, off: bool, x: LabelData<NodeId>) -> bool {
    exists|s: LabelData<NodeId>, p: Seq<int>| from.contains(s) && #[trigger] follows(g, s, p, off, x)
}

/// Every label of the bags, and every waiting label, is what a path makes of
/// one of the labels `from`.
pub open spec fn faithful(
    g: MLCGraph,
    from: Set<LabelData<NodeId>>,
    bags: BagsView,
    waiting: Multiset<LabelData<NodeId>>,
    off: bool,
) -> bool {
    &&& forall|n: usize, i: int|
        bags.contains_key(n) && 0 <= i < bags[n].len() ==> walked(g, from, off, #[trigger] bags[n][i])
    &&& forall|x: LabelData<NodeId>| #[trigger] waiting.contains(x) ==> walked(g, from, off, x)
}

/// The path without an edge makes every label of itself.
pub proof fn lemma_origins_are_faithful(
    g: MLCGraph,
    bags: BagsView,
    waiting: Multiset<LabelData<NodeId>>,
    off: bool,
)
    ensures
        faithful(g, origins(bags, waiting), bags, waiting, off),
{
    let from = origins(bags, waiting);
    let none = Seq::<int>::empty();
    assert forall|x: LabelData<NodeId>| from.contains(x) implies walked(g, from, off, x) by {
        assert(x.path + route(g, none) =~= x.path);
        assert(follows(g, x, none, off, x));
    }
    assert forall|n: usize, i: int| bags.contains_key(n) && 0 <= i < bags[n].len() implies walked(
        g,
        from,
        off,
        #[trigger] bags[n][i],
    ) by {
        assert(from.contains(bags[n][i]));
    }
    assert forall|x: LabelData<NodeId>| #[trigger] waiting.contains(x) implies walked(
        g,
        from,
        off,
        x,
    ) by {
        assert(from.contains(x));
    }
}

/// A label that continues what a path made of a label is what a path makes of
/// that label: the path with one edge more.
pub proof fn lemma_continues_walked(
    g: MLCGraph,
    from: Set<LabelData<NodeId>>,
    l: LabelData<NodeId>,
    x: LabelData<NodeId>,
    off: bool,
)
    requires
        walked(g, from, off, l),
        continues(g, l, x, off),
        forall|e: int| is_edge(g, e) ==> (#[trigger] edge_weights(g, e)).len() == l.values.len(),
        forall|e: int|
            is_edge(g, e) ==> (#[trigger] edge_hidden_weights(g, e)).len() == l.hidden_values.len(),
    ensures
        walked(g, from, off, x),
{
    let (s, p) = choose|s: LabelData<NodeId>, p: Seq<int>|
        from.contains(s) && #[trigger] follows(g, s, p, off, l);
    let e = choose|e: int|
        is_edge(g, e) && #[trigger] edge_source(g, e) == l.node_id && edge_target(g, e)
            == x.node_id && extension(
            l,
            edge_weights(g, e),
            edge_hidden_weights(g, e),
            x.node_id,
            off,
            x,
        );
    let q = p.push(e);
    assert(q.drop_last() =~= p);
    assert(is_path(g, s.node_id as int, q));
    assert(edge_weights(g, e).len() == l.values.len());
    assert(edge_hidden_weights(g, e).len() == l.hidden_values.len());
    assert(path_cost(g, unbounded(s.values), q) =~= unbounded(x.values)) by {
        let sum = sum_along(l.values, edge_weights(g, e));
        assert forall|j: int| 0 <= j < x.values.len() implies path_cost(
            g,
            unbounded(s.values),
            q,
        )[j] == unbounded(x.values)[j] by {
            assert(x.values[j] == sum[j]);
            assert(unbounded(l.values)[j] == l.values[j]);
        }
    }
    assert(path_hidden_cost(g, unbounded(s.hidden_values), q) =~= unbounded(x.hidden_values)) by {
        let sum = sum_along(l.hidden_values, edge_hidden_weights(g, e));
        assert forall|j: int| 0 <= j < x.hidden_values.len() implies path_hidden_cost(
            g,
            unbounded(s.hidden_values),
            q,
        )[j] == unbounded(x.hidden_values)[j] by {
            assert(x.hidden_values[j] == sum[j]);
            assert(unbounded(l.hidden_values)[j] == l.hidden_values[j]);
        }
    }
    if !off {
        assert(route(g, q) =~= route(g, p).push(l.node_id));
        assert(x.path =~= s.path + route(g, q));
    }
    assert(follows(g, s, q, off, x));
}

/// Bags and waiting labels that grew from faithful ones by labels that
/// continue a waiting label are faithful.
pub proof fn lemma_grown_is_faithful(
    g: MLCGraph,
    from: Set<LabelData<NodeId>>,
    bags0: BagsView,
    waiting0: Multiset<LabelData<NodeId>>,
    l: LabelData<NodeId>,
    bags: BagsView,
    waiting: Multiset<LabelData<NodeId>>,
    off: bool,
)
    requires
        faithful(g, from, bags0, waiting0, off),
        waiting0.contains(l),
        grown_from(g, bags0, waiting0, l, bags, waiting, off),
        forall|e: int| is_edge(g, e) ==> (#[trigger] edge_weights(g, e)).len() == l.values.len(),
        forall|e: int|
            is_edge(g, e) ==> (#[trigger] edge_hidden_weights(g, e)).len() == l.hidden_values.len(),
    ensures
        faithful(g, from, bags, waiting, off),
{
    assert forall|n: usize, i: int| bags.contains_key(n) && 0 <= i < bags[n].len() implies walked(
        g,
        from,
        off,
        #[trigger] bags[n][i],
    ) by {
        if continues(g, l, bags[n][i], off) {
            lemma_continues_walked(g, from, l, bags[n][i], off);
        } else {
            let a = choose|a: int| 0 <= a < bags0[n].len() && bags0[n][a] == bags[n][i];
            assert(walked(g, from, off, bags0[n][a]));
        }
    }
    assert forall|x: LabelData<NodeId>| #[trigger] waiting.contains(x) implies walked(
        g,
        from,
        off,
        x,
    ) by {
        if !waiting0.contains(x) {
            lemma_continues_walked(g, from, l, x, off);
        }
    }
}

/// The cost vectors of a bag.
pub open spec fn costs_of(bag: Seq<LabelData<NodeId>>) -> Set<Seq<u64>> {
    Set::new(|v: Seq<u64>| exists|i: int| 0 <= i < bag.len() && (#[trigger] bag[i]).values == v)
}

/// What a set of bags must be to be the result of a search from the start
/// labels `seeds`: every bag is an antichain of labels with `k` costs, the
/// bags cover the start labels, they are closed, and every label holds the
/// costs of a path from a start label.
#[verifier::opaque]
pub open spec fn is_result(g: MLCGraph, seeds: Set<(NodeId, Seq<u64>)>, bags: BagsView, k: nat) -> bool {
    &&& forall|n: usize| #[trigger]
        bags.contains_key(n) ==> uniform(bags[n], k) && crate::bag::is_antichain(bags[n])
    &&& forall|s: (NodeId, Seq<u64>)| #[trigger]
        seeds.contains(s) ==> bag_covers(bag_at(bags, s.0 as int), unbounded(s.1))
    &&& all_closed(g, bags)
    &&& sound(g, seeds, bags, Multiset::empty())
}

/// A result is complete: for every path from a start label, the bag of the
/// node that the path reaches holds a label that is no worse than the costs
/// of the path.
pub proof fn lemma_result_is_complete(
    g: MLCGraph,
    seeds: Set<(NodeId, Seq<u64>)>,
    bags: BagsView,
    k: nat,
    from: NodeId,
    c: Seq<u64>,
    p: Seq<int>,
)
    requires
        forall|e: int| is_edge(g, e) ==> (#[trigger] edge_weights(g, e)).len() == k,
        is_result(g, seeds, bags, k),
        seeds.contains((from, c)),
        is_path(g, from as int, p),
    ensures
        bag_covers(bag_at(bags, path_end(g, from as int, p)), path_cost(g, unbounded(c), p)),
{
    reveal(is_result);
    lemma_paths_are_covered(g, bags, k, from as int, unbounded(c), p);
}

/// A result covers every cost vector of another result of the same search.
proof fn lemma_result_covers(
    g: MLCGraph,
    seeds: Set<(NodeId, Seq<u64>)>,
    one: BagsView,
    other: BagsView,
    k: nat,
    n: usize,
    i: int,
)
    requires
        forall|e: int| is_edge(g, e) ==> (#[trigger] edge_weights(g, e)).len() == k,
        is_result(g, seeds, one, k),
        is_result(g, seeds, other, k),
        one.contains_key(n),
        0 <= i < one[n].len(),
    ensures
        bag_covers(bag_at(other, n as int), unbounded(one[n][i].values)),
{
    reveal(is_result);
    let v = one[n][i].values;
    assert(reached(g, seeds, n, v));
    let (from, c, p) = choose|from: NodeId, c: Seq<u64>, p: Seq<int>| #[trigger]
        starts(seeds, from, c, p) && is_path(g, from as int, p) && path_end(g, from as int, p)
            == n && path_cost(g, unbounded(c), p) == unbounded(v);
    assert(seeds.contains((from, c)));
    lemma_result_is_complete(g, seeds, other, k, from, c, p);
}

/// The result of a search is one: two sets of bags that both are results of
/// a search from the same start labels hold the same cost vectors at every
/// node. So a search that passes over labels, or expands them in another
/// order, finds the same cost vectors, as long as it finds a result.
pub proof fn lemma_result_is_unique(
    g: MLCGraph,
    seeds: Set<(NodeId, Seq<u64>)>,
    one: BagsView,
    other: BagsView,
    k: nat,
)
    requires
        forall|e: int| is_edge(g, e) ==> (#[trigger] edge_weights(g, e)).len() == k,
        is_result(g, seeds, one, k),
        is_result(g, seeds, other, k),
    ensures
        forall|n: int| costs_of(#[trigger] bag_at(one, n)) == costs_of(bag_at(other, n)),
{
    assert forall|n: int| costs_of(#[trigger] bag_at(one, n)) == costs_of(bag_at(other, n)) by {
        assert forall|v: Seq<u64>| costs_of(bag_at(one, n)).contains(v) implies costs_of(
            bag_at(other, n),
        ).contains(v) by {
            lemma_costs_shared(g, seeds, one, other, k, n, v);
        }
        assert forall|v: Seq<u64>| costs_of(bag_at(other, n)).contains(v) implies costs_of(
            bag_at(one, n),
        ).contains(v) by {
            lemma_costs_shared(g, seeds, other, one, k, n, v);
        }
        assert(costs_of(bag_at(one, n)) =~= costs_of(bag_at(other, n)));
    }
}

/// The bags of a result are antichains of labels with `k` costs.
proof fn lemma_result_bag(
    g: MLCGraph,
    seeds: Set<(NodeId, Seq<u64>)>,
    bags: BagsView,
    k: nat,
    n: usize,
)
    requires
        is_result(g, seeds, bags, k),
        bags.contains_key(n),
    ensures
        uniform(bags[n], k),
        crate::bag::is_antichain(bags[n]),
{
    reveal(is_result);
}

/// Costs between the costs of two labels of an antichain, of which the first
/// is no worse than the second, are the costs of both.
proof fn lemma_squeezed(bag: Seq<LabelData<NodeId>>, a: int, i: int, u: Seq<u64>)
    requires
        crate::bag::is_antichain(bag),
        0 <= a < bag.len(),
        0 <= i < bag.len(),
        below(bag[a].values, unbounded(u)),
        below(u, unbounded(bag[i].values)),
    ensures
        u == bag[i].values,
{
    let w = bag[a].values;
    let v = bag[i].values;
    assert(crate::bag::dominates(w, v)) by {
        assert forall|x: int| 0 <= x < w.len() && x < v.len() implies w[x] <= v[x] by {
            assert(w[x] <= unbounded(u)[x]);
            assert(u[x] <= unbounded(v)[x]);
        }
    }
    assert(a == i);
    assert(u =~= v) by {
        assert forall|x: int| 0 <= x < u.len() implies u[x] == v[x] by {
            assert(w[x] <= unbounded(u)[x]);
            assert(u[x] <= unbounded(v)[x]);
        }
    }
}

/// A cost vector of a result is a cost vector of every other result of the
/// same search.
proof fn lemma_costs_shared(
    g: MLCGraph,
    seeds: Set<(NodeId, Seq<u64>)>,
    one: BagsView,
    other: BagsView,
    k: nat,
    n: int,
    v: Seq<u64>,
)
    requires
        forall|e: int| is_edge(g, e) ==> (#[trigger] edge_weights(g, e)).len() == k,
        is_result(g, seeds, one, k),
        is_result(g, seeds, other, k),
        costs_of(bag_at(one, n)).contains(v),
    ensures
        costs_of(bag_at(other, n)).contains(v),
{
    let bag = bag_at(one, n);
    let i = choose|i: int| 0 <= i < bag.len() && (#[trigger] bag[i]).values == v;
    let m = n as usize;
    assert(one.contains_key(m) && one[m] == bag);
    lemma_result_covers(g, seeds, one, other, k, m, i);
    let there = bag_at(other, n);
    let j = choose|j: int| 0 <= j < there.len() && below(#[trigger] there[j].values, unbounded(v));
    let u = there[j].values;
    assert(other.contains_key(m) && other[m] == there);
    lemma_result_covers(g, seeds, other, one, k, m, j);
    let a = choose|a: int| 0 <= a < bag.len() && below(#[trigger] bag[a].values, unbounded(u));
    lemma_result_bag(g, seeds, one, k, m);
    lemma_squeezed(bag, a, i, u);
    assert(there[j].values == v);
}

} // verus!
