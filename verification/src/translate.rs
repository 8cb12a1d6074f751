//! From node indices back to the names that the nodes have outside.

use crate::bag::{copy_weights, Bag, Label, LabelData, NodeId};
use crate::maps::keys_of;
use crate::measure::{bag_at, BagsView};
use crate::mlc::{bags_view, Bags, MLCError};
use crate::node_map::{name_of, node_ids, NodeMap};
use vstd::prelude::*;

verus! {

/// `name` is the name of node `id`.
pub open spec fn names(ids: Map<Seq<char>, usize>, name: Seq<char>, id: NodeId) -> bool {
    ids.contains_key(name) && ids[name] == id
}

/// Node `id` has no name.
pub open spec fn nameless(ids: Map<Seq<char>, usize>, id: NodeId) -> bool {
    forall|k: Seq<char>| ids.contains_key(k) ==> ids[k] != id
}

/// `t` is the label `l` with names in place of the node indices.
pub open spec fn label_named(ids: Map<Seq<char>, usize>, t: LabelData<String>, l: LabelData<NodeId>) -> bool {
    &&& t.values == l.values
    &&& t.hidden_values == l.hidden_values
    &&& names(ids, t.node_id@, l.node_id)
    &&& t.path.len() == l.path.len()
    &&& forall|i: int| 0 <= i < l.path.len() ==> names(ids, (#[trigger] t.path[i])@, l.path[i])
}

/// A node of the label `l`, the one it is at or one of its path, has no
/// name.
pub open spec fn label_nameless(ids: Map<Seq<char>, usize>, l: LabelData<NodeId>, id: NodeId) -> bool {
    &&& nameless(ids, id)
    &&& id == l.node_id || exists|i: int| 0 <= i < l.path.len() && #[trigger] l.path[i] == id
}

/// `t` holds the labels of `bag` with names in place of the node indices.
pub open spec fn bag_named(
    ids: Map<Seq<char>, usize>,
    t: Seq<LabelData<String>>,
    bag: Seq<LabelData<NodeId>>,
) -> bool {
    &&& t.len() == bag.len()
    &&& forall|i: int| 0 <= i < bag.len() ==> label_named(ids, #[trigger] t[i], bag[i])
}

/// The label with names in place of its node indices. It is refused with the
/// first node that has no name: the node of the label, or one of its path.
pub fn translate_label(node_map: &NodeMap, label: &Label<NodeId>) -> (r: Result<
    Label<String>,
    MLCError,
>)
    ensures
        match r {
            Ok(t) => label_named(node_ids(*node_map), t@, label@),
            Err(MLCError::UnknownNodeId(id)) => label_nameless(node_ids(*node_map), label@, id),
            Err(_) => false,
        },
{
    let name = match name_of(node_map, &label.node_id) {
        Some(name) => name.clone(),
        None => {
            return Err(MLCError::UnknownNodeId(label.node_id));
        },
    };
    let mut path: Vec<String> = Vec::new();
    let mut i: usize = 0;
    while i < label.path.len()
        invariant
            i <= label.path.len(),
            path.len() == i,
            forall|j: int|
                0 <= j < i ==> names(node_ids(*node_map), (#[trigger] path@[j])@, label.path@[j]),
        decreases label.path.len() - i,
    {
        match name_of(node_map, &label.path[i]) {
            Some(step) => {
                path.push(step.clone());
            },
            None => {
                assert(label@.path[i as int] == label.path@[i as int]);
                return Err(MLCError::UnknownNodeId(label.path[i]));
            },
        }
        i += 1;
    }
    Ok(
        Label {
            node_id: name,
            path,
            values: copy_weights(&label.values),
            hidden_values: copy_weights(&label.hidden_values),
        },
    )
}

/// A label of `bag` has a node without a name.
pub open spec fn bag_nameless(ids: Map<Seq<char>, usize>, bag: Seq<LabelData<NodeId>>, id: NodeId) -> bool {
    exists|i: int| 0 <= i < bag.len() && label_nameless(ids, #[trigger] bag[i], id)
}

/// The bag with names in place of the node indices of its labels.
pub fn translate_bag(node_map: &NodeMap, bag: &Bag<NodeId>) -> (r: Result<Bag<String>, MLCError>)
    ensures
        match r {
            Ok(t) => bag_named(node_ids(*node_map), t@, bag@),
            Err(MLCError::UnknownNodeId(id)) => bag_nameless(node_ids(*node_map), bag@, id),
            Err(_) => false,
        },
{
    let mut labels: Vec<Label<String>> = Vec::new();
    let mut i: usize = 0;
    while i < bag.labels.len()
        invariant
            i <= bag.labels.len(),
            labels.len() == i,
            forall|j: int|
                0 <= j < i ==> label_named(node_ids(*node_map), (#[trigger] labels@[j])@, bag@[j]),
        decreases bag.labels.len() - i,
    {
        match translate_label(node_map, &bag.labels[i]) {
            Ok(t) => {
                labels.push(t);
            },
            Err(e) => {
                assert(bag@[i as int] == bag.labels@[i as int]@);
                return Err(e);
            },
        }
        i += 1;
    }
    let t = Bag { labels };
    assert(t@.len() == bag@.len());
    assert forall|j: int| 0 <= j < bag@.len() implies label_named(
        node_ids(*node_map),
        #[trigger] t@[j],
        bag@[j],
    ) by {
        assert(t@[j] == labels@[j]@);
    }
    Ok(t)
}

/// `t` holds, for every node of `nodes`, the node's name and its bag with
/// names in place of the node indices.
pub open spec fn bags_named(
    ids: Map<Seq<char>, usize>,
    t: Seq<(String, Bag<String>)>,
    bags: BagsView,
    nodes: Seq<NodeId>,
) -> bool {
    &&& t.len() == nodes.len()
    &&& forall|a: int|
        0 <= a < nodes.len() ==> names(ids, (#[trigger] t[a]).0@, nodes[a]) && bag_named(
            ids,
            t[a].1@,
            bag_at(bags, nodes[a] as int),
        )
}

/// A node of `nodes`, or a node of a label of its bag, has no name.
pub open spec fn bags_nameless(
    ids: Map<Seq<char>, usize>,
    bags: BagsView,
    nodes: Seq<NodeId>,
    id: NodeId,
) -> bool {
    exists|a: int|
        0 <= a < nodes.len() && ((#[trigger] nodes[a] == id && nameless(ids, id)) || bag_nameless(
            ids,
            bag_at(bags, nodes[a] as int),
            id,
        ))
}

/// The names and the bags of the nodes `nodes`, with names in place of node
/// indices. A node without a bag gives a bag without labels.
pub fn translate_bags_in_order(node_map: &NodeMap, bags: &Bags<usize>, nodes: &Vec<NodeId>) -> (r:
    Result<Vec<(String, Bag<String>)>, MLCError>)
    ensures
        match r {
            Ok(t) => bags_named(node_ids(*node_map), t@, bags_view(bags@), nodes@),
            Err(MLCError::UnknownNodeId(id)) => bags_nameless(
                node_ids(*node_map),
                bags_view(bags@),
                nodes@,
                id,
            ),
            Err(_) => false,
        },
{
    broadcast use vstd::std_specs::hash::group_hash_axioms;

    let ghost view = bags_view(bags@);
    let mut out: Vec<(String, Bag<String>)> = Vec::new();
    let mut a: usize = 0;
    while a < nodes.len()
        invariant
            a <= nodes.len(),
            out.len() == a,
            view == bags_view(bags@),
            forall|b: int|
                0 <= b < a ==> names(node_ids(*node_map), (#[trigger] out@[b]).0@, nodes@[b])
                    && bag_named(node_ids(*node_map), out@[b].1@, bag_at(view, nodes@[b] as int)),
        decreases nodes.len() - a,
    {
        let name = match name_of(node_map, &nodes[a]) {
            Some(name) => name.clone(),
            None => {
                assert(nodes@[a as int] == nodes@[a as int]);
                return Err(MLCError::UnknownNodeId(nodes[a]));
            },
        };
        let translated = match bags.get(&nodes[a]) {
            Some(bag) => match translate_bag(node_map, bag) {
                Ok(t) => t,
                Err(e) => {
                    assert(bag@ == bag_at(view, nodes@[a as int] as int));
                    return Err(e);
                },
            },
            None => {
                let t: Bag<String> = Bag { labels: Vec::new() };
                assert(t@.len() == 0);
                t
            },
        };
        out.push((name, translated));
        a += 1;
    }
    Ok(out)
}

/// The names and the bags of all nodes that have a bag, with names in place
/// of node indices. The bags come in the order in which the map hands them
/// out.
pub fn translate_bags(node_map: &NodeMap, bags: &Bags<usize>) -> (r: Result<
    Vec<(String, Bag<String>)>,
    MLCError,
>)
    ensures
        match r {
            Ok(t) => exists|nodes: Seq<NodeId>|
                nodes.no_duplicates() && nodes.to_set() == bags_view(bags@).dom() && #[trigger] bags_named(
                    node_ids(*node_map),
                    t@,
                    bags_view(bags@),
                    nodes,
                ),
            Err(MLCError::UnknownNodeId(id)) => exists|nodes: Seq<NodeId>|
                nodes.to_set() == bags_view(bags@).dom() && #[trigger] bags_nameless(
                    node_ids(*node_map),
                    bags_view(bags@),
                    nodes,
                    id,
                ),
            Err(_) => false,
        },
{
    broadcast use vstd::std_specs::hash::group_hash_axioms;

    let nodes = keys_of(bags);
    assert(bags_view(bags@).dom() =~= bags@.dom());
    translate_bags_in_order(node_map, bags, &nodes)
}

} // verus!
