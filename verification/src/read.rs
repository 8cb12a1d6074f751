//! From edge records to a graph: the weights of a record are read from their
//! text, the names of the nodes are numbered in the order in which they
//! appear, and the graph is built from the numbered edges.

use crate::bag::{copy_weights, NodeId, Weights, WeightsTuple};
use crate::graph::{graph_from_edges, is_graph_of, MLCGraph, WeightedEdge, MAX_INDEX};
use crate::node_map::{add_name, has_name, id_of, new_node_map, node_ids, with_pair, NodeMap};
use crate::store::LineError;
use crate::text::{fields, numbers_of, parse_numbers, split};
use vstd::prelude::*;
use vstd::string::StringSliceAdditionalSpecFns;

verus! {

/// An edge between two nodes that are known by their names.
#[derive(Debug)]
pub struct UntranslatedEdge {
    pub u: String,
    pub v: String,
    pub weights: Weights,
    pub hidden_weights: Option<Weights>,
}

/// An edge between two nodes that are known by their indices.
#[derive(Debug)]
pub struct Edge {
    pub u: NodeId,
    pub v: NodeId,
    pub weights: Weights,
    pub hidden_weights: Option<Weights>,
}

/// Why no graph could be made from the edges.
#[derive(Debug, Clone, Copy, PartialEq, Eq, Structural)]
pub enum GraphError {
    /// There are more edges, or nodes, than a graph takes.
    TooLarge,
}

/// The weights that the text `s` stands for: numbers with `;` between them,
/// in square brackets.
pub open spec fn weights_of(s: Seq<u8>) -> Result<Seq<u64>, LineError> {
    if s.len() < 2 || s[0] != 91 || s.last() != 93 {
        Err(LineError::MissingField)
    } else {
        match numbers_of(fields(s.subrange(1, s.len() - 1), 59)) {
            Some(v) => Ok(v),
            None => Err(LineError::InvalidNumber),
        }
    }
}

impl Weights {
    /// Reads weights from their text, such as `[3;0;10]`.
    pub fn from_str(s: &str) -> (r: Result<Weights, LineError>)
        ensures
            match r {
                Ok(w) => weights_of(s.spec_bytes()) == Ok::<Seq<u64>, LineError>(w.0@),
                Err(e) => weights_of(s.spec_bytes()) == Err::<Seq<u64>, LineError>(e),
            },
    {
        Weights::from_bytes(s.as_bytes())
    }

    /// Reads weights from their text, such as `[3;0;10]`.
    pub fn from_bytes(s: &[u8]) -> (r: Result<Weights, LineError>)
        ensures
            match r {
                Ok(w) => weights_of(s@) == Ok::<Seq<u64>, LineError>(w.0@),
                Err(e) => weights_of(s@) == Err::<Seq<u64>, LineError>(e),
            },
    {
        let n = s.len();
        if n < 2 || s[0] != 91 || s[n - 1] != 93 {
            return Err(LineError::MissingField);
        }
        let inner = vstd::slice::slice_subrange(s, 1, n - 1);
        let parts = split(inner, 59);
        match parse_numbers(&parts) {
            Some(v) => Ok(Weights(v)),
            None => Err(LineError::InvalidNumber),
        }
    }
}

/// The weight of an edge with the visible weights `weights` and the hidden
/// weights `hidden_weights`, of which there are none where none are given.
pub fn weights_tuple(weights: &Weights, hidden_weights: &Option<Weights>) -> (r: WeightsTuple)
    ensures
        r.weights@ == weights.0@,
        r.hidden_weights@ == match hidden_weights {
            Some(h) => h.0@,
            None => Seq::<u64>::empty(),
        },
{
    let hidden = match hidden_weights {
        Some(h) => copy_weights(&h.0),
        None => Vec::new(),
    };
    WeightsTuple { weights: copy_weights(&weights.0), hidden_weights: hidden }
}

/// `w` is the edge `e` as the graph takes it.
pub open spec fn is_weighted(w: WeightedEdge, e: Edge) -> bool {
    &&& w.u == e.u
    &&& w.v == e.v
    &&& w.weights.weights@ == e.weights.0@
    &&& w.weights.hidden_weights@ == match e.hidden_weights {
        Some(h) => h.0@,
        None => Seq::<u64>::empty(),
    }
}

/// The edges fit into a graph: there are not too many, and no node index is
/// too large.
pub open spec fn fits_graph(edges: Seq<Edge>) -> bool {
    &&& edges.len() <= MAX_INDEX
    &&& forall|i: int| 0 <= i < edges.len() ==> (#[trigger] edges[i]).u < MAX_INDEX && edges[i].v < MAX_INDEX
}

/// `g` holds the edges `edges`, in their order.
pub open spec fn holds_edges(g: MLCGraph, edges: Seq<Edge>) -> bool {
    exists|w: Seq<WeightedEdge>| all_weighted(w, edges) && #[trigger] is_graph_of(g, w)
}

/// The edges `w` are the edges `edges` as the graph takes them.
pub open spec fn all_weighted(w: Seq<WeightedEdge>, edges: Seq<Edge>) -> bool {
    &&& w.len() == edges.len()
    &&& forall|i: int| 0 <= i < edges.len() ==> is_weighted(#[trigger] w[i], edges[i])
}

/// The graph with the edges `edges`, in their order, and a node without tags
/// for every index up to the largest that an edge names.
pub fn graph_with_int_ids(edges: &Vec<Edge>) -> (r: Result<MLCGraph, GraphError>)
    ensures
        r is Ok <==> fits_graph(edges@),
        r is Ok ==> holds_edges(r->Ok_0, edges@),
{
    if edges.len() > MAX_INDEX {
        return Err(GraphError::TooLarge);
    }
    let mut weighted_edges: Vec<WeightedEdge> = Vec::new();
    let mut i: usize = 0;
    while i < edges.len()
        invariant
            i <= edges.len(),
            edges.len() <= MAX_INDEX,
            weighted_edges.len() == i,
            forall|j: int|
                0 <= j < i ==> is_weighted(#[trigger] weighted_edges@[j], edges@[j]) && edges@[j].u
                    < MAX_INDEX && edges@[j].v < MAX_INDEX,
        decreases edges.len() - i,
    {
        let e = &edges[i];
        if e.u >= MAX_INDEX || e.v >= MAX_INDEX {
            return Err(GraphError::TooLarge);
        }
        weighted_edges.push(
            WeightedEdge { u: e.u, v: e.v, weights: weights_tuple(&e.weights, &e.hidden_weights) },
        );
        i += 1;
    }
    let ghost w = weighted_edges@;
    assert forall|i: int| 0 <= i < edges@.len() implies (#[trigger] edges@[i]).u < MAX_INDEX
        && edges@[i].v < MAX_INDEX by {
        assert(is_weighted(w[i], edges@[i]));
    }
    assert(fits_graph(edges@));
    let g = graph_from_edges(weighted_edges);
    proof {
        assert(all_weighted(w, edges@) && is_graph_of(g, w));
    }
    Ok(g)
}

/// The names of the nodes of `edges`, as the edges name them: for every
/// edge, the node it leaves and the node it reaches.
pub open spec fn names_in(edges: Seq<UntranslatedEdge>) -> Seq<Seq<char>>
    decreases edges.len(),
{
    if edges.len() == 0 {
        Seq::empty()
    } else {
        names_in(edges.drop_last()).push(edges.last().u@).push(edges.last().v@)
    }
}

/// The numbers of the names `names`: every name has the number of names
/// that came before it for the first time.
pub open spec fn numbered(names: Seq<Seq<char>>) -> (Map<Seq<char>, usize>, nat)
    decreases names.len(),
{
    if names.len() == 0 {
        (Map::empty(), 0)
    } else {
        let (ids, count) = numbered(names.drop_last());
        if ids.contains_key(names.last()) {
            (ids, count)
        } else {
            (ids.insert(names.last(), count as usize), count + 1)
        }
    }
}

/// The numbers that are given are those below the count, and the count is
/// at most the number of names.
pub proof fn lemma_numbered(names: Seq<Seq<char>>)
    ensures
        numbered(names).1 <= names.len(),
        forall|k: Seq<char>| #[trigger]
            numbered(names).0.contains_key(k) ==> numbered(names).0[k] < numbered(names).1,
        forall|i: int| 0 <= i < names.len() ==> numbered(names).0.contains_key(#[trigger] names[i]),
    decreases names.len(),
{
    if names.len() > 0 {
        lemma_numbered(names.drop_last());
        assert forall|i: int| 0 <= i < names.len() implies numbered(names).0.contains_key(
            #[trigger] names[i],
        ) by {
            if i < names.len() - 1 {
                assert(names.drop_last()[i] == names[i]);
            }
        }
    }
}

/// Gives `name` the next number, unless it has one.
fn number_name(node_map: &mut NodeMap, count: &mut usize, name: &String, Ghost(names): Ghost<
    Seq<Seq<char>>,
>)
    requires
        node_ids(*old(node_map)) == numbered(names).0,
        *old(count) == numbered(names).1,
        *old(count) < usize::MAX,
    ensures
        node_ids(*final(node_map)) == numbered(names.push(name@)).0,
        *final(count) == numbered(names.push(name@)).1,
{
    proof {
        assert(names.push(name@).drop_last() =~= names);
        lemma_numbered(names);
    }
    if !has_name(node_map, name) {
        let ghost before = node_ids(*node_map);
        add_name(node_map, name.clone(), *count);
        assert(node_ids(*node_map) =~= before.insert(name@, *count)) by {
            assert(with_pair(before, name@, *count) =~= before.insert(name@, *count));
        }
        *count = *count + 1;
    }
}

/// The edge `e` between the nodes that `ids` gives to its names.
pub open spec fn is_translated(t: Edge, e: UntranslatedEdge, ids: Map<Seq<char>, usize>) -> bool {
    &&& ids.contains_key(e.u@)
    &&& ids.contains_key(e.v@)
    &&& t.u == ids[e.u@]
    &&& t.v == ids[e.v@]
    &&& t.weights.0@ == e.weights.0@
    &&& match (t.hidden_weights, e.hidden_weights) {
        (Some(a), Some(b)) => a.0@ == b.0@,
        (None, None) => true,
        _ => false,
    }
}

/// The edges `t` are the edges `edges` between the nodes that `ids` gives to
/// their names.
pub open spec fn translates(
    t: Seq<Edge>,
    edges: Seq<UntranslatedEdge>,
    ids: Map<Seq<char>, usize>,
) -> bool {
    &&& t.len() == edges.len()
    &&& forall|i: int| 0 <= i < t.len() ==> is_translated(#[trigger] t[i], edges[i], ids)
}

/// Numbers the names of the nodes of `edges` in the order in which they
/// appear, and gives the map from the names to the numbers, and the edges
/// between the numbered nodes.
pub fn reset_ids(edges: &Vec<UntranslatedEdge>) -> (r: (NodeMap, Vec<Edge>))
    requires
        2 * edges@.len() <= MAX_INDEX,
    ensures
        node_ids(r.0) == numbered(names_in(edges@)).0,
        r.1@.len() == edges@.len(),
        forall|i: int|
            0 <= i < edges@.len() ==> is_translated(#[trigger] r.1@[i], edges@[i], node_ids(r.0)),
        forall|i: int|
            0 <= i < edges@.len() ==> (#[trigger] r.1@[i]).u < 2 * edges@.len() && r.1@[i].v < 2
                * edges@.len(),
{
    let mut node_map = new_node_map();
    let mut count: usize = 0;
    let mut i: usize = 0;
    assert(edges@.take(0) =~= Seq::<UntranslatedEdge>::empty());
    assert(node_ids(node_map) =~= numbered(names_in(edges@.take(0))).0);
    while i < edges.len()
        invariant
            i <= edges.len(),
            2 * edges@.len() <= MAX_INDEX,
            node_ids(node_map) == numbered(names_in(edges@.take(i as int))).0,
            count == numbered(names_in(edges@.take(i as int))).1,
            names_in(edges@.take(i as int)).len() == 2 * i,
        decreases edges.len() - i,
    {
        let ghost names = names_in(edges@.take(i as int));
        proof {
            lemma_numbered(names);
            lemma_numbered(names.push(edges@[i as int].u@));
            let next = edges@.take(i + 1);
            assert(next.drop_last() =~= edges@.take(i as int));
            assert(next.last() == edges@[i as int]);
        }
        number_name(&mut node_map, &mut count, &edges[i].u, Ghost(names));
        number_name(
            &mut node_map,
            &mut count,
            &edges[i].v,
            Ghost(names.push(edges@[i as int].u@)),
        );
        i += 1;
    }
    assert(edges@.take(edges@.len() as int) =~= edges@);
    let ghost all_names = names_in(edges@);
    let mut translated: Vec<Edge> = Vec::new();
    let mut j: usize = 0;
    while j < edges.len()
        invariant
            j <= edges.len(),
            translated.len() == j,
            all_names == names_in(edges@),
            all_names.len() == 2 * edges@.len(),
            node_ids(node_map) == numbered(all_names).0,
            forall|a: int|
                0 <= a < j ==> is_translated(#[trigger] translated@[a], edges@[a], node_ids(node_map)),
            forall|a: int|
                0 <= a < j ==> (#[trigger] translated@[a]).u < 2 * edges@.len() && translated@[a].v
                    < 2 * edges@.len(),
        decreases edges.len() - j,
    {
        let e = &edges[j];
        proof {
            lemma_numbered(all_names);
            lemma_names_in(edges@, j as int);
        }
        let u = match id_of(&node_map, &e.u) {
            Some(id) => *id,
            None => 0,
        };
        let v = match id_of(&node_map, &e.v) {
            Some(id) => *id,
            None => 0,
        };
        let hidden = match &e.hidden_weights {
            Some(h) => Some(h.clone()),
            None => None,
        };
        translated.push(Edge { u, v, weights: e.weights.clone(), hidden_weights: hidden });
        j += 1;
    }
    (node_map, translated)
}

/// The names of an edge are among the names of its edges.
pub proof fn lemma_names_in(edges: Seq<UntranslatedEdge>, i: int)
    requires
        0 <= i < edges.len(),
    ensures
        names_in(edges).len() == 2 * edges.len(),
        names_in(edges)[2 * i] == edges[i].u@,
        names_in(edges)[2 * i + 1] == edges[i].v@,
    decreases edges.len(),
{
    lemma_names_len(edges);
    lemma_names_len(edges.drop_last());
    if i < edges.len() - 1 {
        lemma_names_in(edges.drop_last(), i);
        assert(edges.drop_last()[i] == edges[i]);
    }
}

/// Every edge has two names.
pub proof fn lemma_names_len(edges: Seq<UntranslatedEdge>)
    ensures
        names_in(edges).len() == 2 * edges.len(),
    decreases edges.len(),
{
    if edges.len() > 0 {
        lemma_names_len(edges.drop_last());
    }
}

/// The graph of the edges `edges`, whose nodes are numbered in the order in
/// which their names appear, and the map from the names to the numbers.
pub fn graph_with_reset_ids(edges: &Vec<UntranslatedEdge>) -> (r: Result<
    (MLCGraph, NodeMap),
    GraphError,
>)
    ensures
        r is Ok <==> 2 * edges@.len() <= MAX_INDEX,
        r is Ok ==> node_ids(r->Ok_0.1) == numbered(names_in(edges@)).0,
        r is Ok ==> exists|t: Seq<Edge>|
            translates(t, edges@, node_ids(r->Ok_0.1)) && #[trigger] holds_edges(r->Ok_0.0, t),
{
    if edges.len() > MAX_INDEX / 2 {
        return Err(GraphError::TooLarge);
    }
    let (node_map, translated) = reset_ids(edges);
    assert(fits_graph(translated@));
    match graph_with_int_ids(&translated) {
        Ok(g) => {
            let r: Result<(MLCGraph, NodeMap), GraphError> = Ok((g, node_map));
            proof {
                let t = translated@;
                assert(translates(t, edges@, node_ids(r->Ok_0.1)) && holds_edges(r->Ok_0.0, t));
            }
            r
        },
        Err(e) => Err(e),
    }
}

} // verus!
