//! The graph that is searched: a `petgraph` graph whose nodes carry their
//! category tags and whose edges carry a `WeightsTuple`.
//!
//! Verus does not look into `petgraph`. What the search needs from a graph is
//! named here, and every function of this file that calls `petgraph` says in its
//! contract what is taken on trust of that call.

use crate::bag::{NodeId, WeightsTuple};
use petgraph::graph::{EdgeIndex, Graph, NodeIndex};
use petgraph::visit::EdgeRef;
use petgraph::Directed;
use vstd::prelude::*;

verus! {

#[verifier::external_type_specification]
#[verifier::external_body]
#[verifier::reject_recursive_types(N)]
#[verifier::reject_recursive_types(E)]
#[verifier::reject_recursive_types(Ty)]
#[verifier::reject_recursive_types(Ix)]
pub struct ExGraph<N, E, Ty, Ix>(Graph<N, E, Ty, Ix>);

#[verifier::external_type_specification]
#[verifier::external_body]
pub struct ExDirected(Directed);

/// A category tag of a node.
pub type Category = u64;

/// The graphs that the search runs on.
pub type MLCGraph = Graph<Vec<Category>, WeightsTuple, Directed, u32>;

/// The category tags of each node of `g`, by the node's index.
pub uninterp spec fn graph_nodes(g: MLCGraph) -> Seq<Seq<u64>>;

/// The edges of `g`, by the edge's index: source, target, visible weights and
/// hidden weights.
pub uninterp spec fn graph_edges(g: MLCGraph) -> Seq<(int, int, Seq<u64>, Seq<u64>)>;

/// The node that edge `e` leaves.
pub open spec fn edge_source(g: MLCGraph, e: int) -> int {
    graph_edges(g)[e].0
}

/// The node that edge `e` reaches.
pub open spec fn edge_target(g: MLCGraph, e: int) -> int {
    graph_edges(g)[e].1
}

/// The visible weights of edge `e`.
pub open spec fn edge_weights(g: MLCGraph, e: int) -> Seq<u64> {
    graph_edges(g)[e].2
}

/// The hidden weights of edge `e`.
pub open spec fn edge_hidden_weights(g: MLCGraph, e: int) -> Seq<u64> {
    graph_edges(g)[e].3
}

/// Every edge of `g` leaves and reaches a node with an index below `n`.
pub open spec fn ends_below(g: MLCGraph, n: int) -> bool {
    forall|e: int|
        is_edge(g, e) ==> 0 <= #[trigger] edge_source(g, e) < n && 0 <= edge_target(g, e) < n
}

/// `e` is an edge of `g`.
pub open spec fn is_edge(g: MLCGraph, e: int) -> bool {
    0 <= e < graph_edges(g).len()
}

/// `petgraph::graph::Graph::node_count`: the number of nodes. Every edge
/// leaves and reaches a node of the graph, so both have indices below that
/// number: the graph takes no edge without its two nodes, and a node that is
/// removed takes its edges with it.
#[verifier::external_body]
pub(crate) fn node_count(g: &MLCGraph) -> (n: usize)
    ensures
        n == graph_nodes(*g).len(),
        ends_below(*g, n as int),
{
    g.node_count()
}

/// `petgraph::graph::Graph::edge_count`: the number of edges.
#[verifier::external_body]
pub(crate) fn edge_count(g: &MLCGraph) -> (n: usize)
    ensures
        n == graph_edges(*g).len(),
{
    g.edge_count()
}

/// `petgraph::graph::Graph::node_weight`, for a node of the graph: its
/// category tags. The index is one of the graph, so it is not cut short when it
/// is made a `NodeIndex`, and the node's weight is there.
#[verifier::external_body]
pub(crate) fn node_tags(g: &MLCGraph, node: NodeId) -> (tags: &Vec<Category>)
    requires
        node < graph_nodes(*g).len(),
    ensures
        tags@ == graph_nodes(*g)[node as int],
{
    g.node_weight(NodeIndex::new(node)).unwrap()
}

/// `petgraph::graph::Graph::edge_weight`, for an edge of the graph: its
/// weight.
#[verifier::external_body]
pub(crate) fn edge_weight(g: &MLCGraph, edge: usize) -> (weight: &WeightsTuple)
    requires
        is_edge(*g, edge as int),
    ensures
        weight.weights@ == edge_weights(*g, edge as int),
        weight.hidden_weights@ == edge_hidden_weights(*g, edge as int),
{
    g.edge_weight(EdgeIndex::new(edge)).unwrap()
}

/// `petgraph::graph::Graph::edge_endpoints`, for an edge of the graph: the
/// node it leaves and the node it reaches. Both are nodes of the graph, which
/// has no edge without its two nodes.
#[verifier::external_body]
pub(crate) fn edge_endpoints(g: &MLCGraph, edge: usize) -> (ends: (NodeId, NodeId))
    requires
        is_edge(*g, edge as int),
    ensures
        ends.0 == edge_source(*g, edge as int),
        ends.1 == edge_target(*g, edge as int),
        ends.0 < graph_nodes(*g).len(),
        ends.1 < graph_nodes(*g).len(),
{
    let (a, b) = g.edge_endpoints(EdgeIndex::new(edge)).unwrap();
    (a.index(), b.index())
}

/// `petgraph::graph::Graph::edges`, for a node of the graph: the indices of
/// the edges that leave it, each once. Nothing is said of their order.
#[verifier::external_body]
pub(crate) fn out_edges(g: &MLCGraph, node: NodeId) -> (edges: Vec<usize>)
    requires
        node < graph_nodes(*g).len(),
    ensures
        edges@.no_duplicates(),
        forall|i: int|
            0 <= i < edges@.len() ==> is_edge(*g, (#[trigger] edges@[i]) as int) && edge_source(
                *g,
                edges@[i] as int,
            ) == node,
        forall|e: int|
            is_edge(*g, e) && #[trigger] edge_source(*g, e) == node ==> exists|i: int|
                0 <= i < edges@.len() && edges@[i] == e,
{
    g.edges(NodeIndex::new(node)).map(|e| e.id().index()).collect()
}

/// One edge of a graph that is yet to be built: the node it leaves, the node
/// it reaches, and its weight.
#[derive(Debug)]
pub struct WeightedEdge {
    pub u: NodeId,
    pub v: NodeId,
    pub weights: WeightsTuple,
}

/// The number of nodes that a graph made from `edges` has: one more than the
/// largest node index in `edges`.
pub open spec fn nodes_needed(edges: Seq<WeightedEdge>) -> int
    decreases edges.len(),
{
    if edges.len() == 0 {
        0
    } else {
        let rest = nodes_needed(edges.drop_last());
        let last = edges.last();
        let top = if last.u >= last.v {
            last.u + 1
        } else {
            last.v + 1
        };
        if top > rest {
            top
        } else {
            rest
        }
    }
}

/// The graph made from `edges` holds them in their order, and has the nodes
/// that they name, each without a tag.
pub open spec fn is_graph_of(g: MLCGraph, edges: Seq<WeightedEdge>) -> bool {
    &&& graph_edges(g).len() == edges.len()
    &&& forall|e: int|
        0 <= e < edges.len() ==> {
            &&& edge_source(g, e) == (#[trigger] edges[e]).u
            &&& edge_target(g, e) == edges[e].v
            &&& edge_weights(g, e) == edges[e].weights.weights@
            &&& edge_hidden_weights(g, e) == edges[e].weights.hidden_weights@
        }
    &&& graph_nodes(g).len() == nodes_needed(edges)
    &&& forall|n: int| 0 <= n < graph_nodes(g).len() ==> (#[trigger] graph_nodes(g)[n]).len() == 0
}

/// The largest number of edges that a graph is made from here, and the bound
/// of the node indices: the graph's indices are `u32`, and the last of them
/// stands for "none".
pub const MAX_INDEX: usize = 0xffff_fffe;

/// `petgraph::graph::Graph::from_edges`: the graph with the given edges, in
/// their order, and with a node without tags for every index up to the largest
/// that an edge names. The indices are small enough to be `NodeIndex` and
/// `EdgeIndex` values, so that none is cut short and the graph does not refuse
/// one.
#[verifier::external_body]
pub(crate) fn graph_from_edges(edges: Vec<WeightedEdge>) -> (g: MLCGraph)
    requires
        edges@.len() <= MAX_INDEX,
        forall|i: int|
            0 <= i < edges@.len() ==> (#[trigger] edges@[i]).u < MAX_INDEX && edges@[i].v
                < MAX_INDEX,
    ensures
        is_graph_of(g, edges@),
{
    Graph::from_edges(
        edges.into_iter().map(|e| (NodeIndex::new(e.u), NodeIndex::new(e.v), e.weights)),
    )
}

} // verus!
