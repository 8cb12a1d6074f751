//! The two-way map between the names that nodes have outside and their
//! indices in the graph: a `bimap` map.
//!
//! Verus does not look into `bimap`. What the map holds is named here, and
//! every function of this file that calls `bimap` says in its contract what is
//! taken on trust of that call.

use bimap::BiHashMap;
use std::collections::hash_map::RandomState;
use vstd::prelude::*;

verus! {

#[verifier::external_type_specification]
#[verifier::external_body]
#[verifier::reject_recursive_types(L)]
#[verifier::reject_recursive_types(R)]
#[verifier::reject_recursive_types(LS)]
#[verifier::reject_recursive_types(RS)]
pub struct ExBiHashMap<L, R, LS, RS>(BiHashMap<L, R, LS, RS>);

/// The map from names to node indices, and back.
pub type NodeMap = BiHashMap<String, usize, RandomState, RandomState>;

/// The index that `m` gives to each name.
pub uninterp spec fn node_ids(m: NodeMap) -> Map<Seq<char>, usize>;

/// What `m` holds after `name` and `id` were paired in it: the pairs with
/// that name or that index are gone, and the new pair is there.
pub open spec fn with_pair(ids: Map<Seq<char>, usize>, name: Seq<char>, id: usize) -> Map<
    Seq<char>,
    usize,
> {
    Map::new(
        |k: Seq<char>| k == name || (ids.contains_key(k) && ids[k] != id),
        |k: Seq<char>|
            if k == name {
                id
            } else {
                ids[k]
            },
    )
}

/// `bimap::BiHashMap::new`: the map without a pair.
#[verifier::external_body]
pub(crate) fn new_node_map() -> (r: NodeMap)
    ensures
        (node_ids(r) == Map::<Seq<char>, usize>::empty()),
{
    BiHashMap::new()
}

/// `bimap::BiHashMap::contains_left`: whether `name` has an index.
#[verifier::external_body]
pub(crate) fn has_name(m: &NodeMap, name: &String) -> (r: bool)
    ensures
        r == node_ids(*m).contains_key(name@),
{
    m.contains_left(name)
}

/// `bimap::BiHashMap::get_by_left`: the index of `name`, if it has one.
#[verifier::external_body]
pub(crate) fn id_of<'a>(m: &'a NodeMap, name: &String) -> (r: Option<&'a usize>)
    ensures
        match r {
            Some(id) => node_ids(*m).contains_key(name@) && node_ids(*m)[name@] == *id,
            None => !node_ids(*m).contains_key(name@),
        },
{
    m.get_by_left(name)
}

/// `bimap::BiHashMap::get_by_right`: the name with the index `id`, if there
/// is one.
#[verifier::external_body]
pub(crate) fn name_of<'a>(m: &'a NodeMap, id: &usize) -> (r: Option<&'a String>)
    ensures
        match r {
            Some(name) => node_ids(*m).contains_key(name@) && node_ids(*m)[name@] == *id,
            None => forall|k: Seq<char>| node_ids(*m).contains_key(k) ==> node_ids(*m)[k] != *id,
        },
{
    m.get_by_right(id)
}

/// `bimap::BiHashMap::insert`: pairs `name` with `id`. A pair that held the
/// name or the index before is overwritten.
#[verifier::external_body]
pub(crate) fn add_name(m: &mut NodeMap, name: String, id: usize)
    ensures
        node_ids(*final(m)) == with_pair(node_ids(*old(m)), name@, id),
{
    m.insert(name, id);
}

/// The pairs `pairs` list the map `ids`: every name of the map once, with
/// its index, and nothing else.
pub open spec fn lists(ids: Map<Seq<char>, usize>, pairs: Seq<(String, usize)>) -> bool {
    &&& forall|i: int, j: int|
        0 <= i < j < pairs.len() ==> (#[trigger] pairs[i]).0@ != (#[trigger] pairs[j]).0@
    &&& forall|i: int|
        0 <= i < pairs.len() ==> ids.contains_key((#[trigger] pairs[i]).0@) && ids[pairs[i].0@]
            == pairs[i].1
    &&& forall|k: Seq<char>|
        ids.contains_key(k) ==> exists|i: int| 0 <= i < pairs.len() && (#[trigger] pairs[i]).0@ == k
}

/// `bimap::BiHashMap::iter`: the pairs of the map, each once, the names
/// copied. Nothing is said of their order.
#[verifier::external_body]
pub(crate) fn pairs_of(m: &NodeMap) -> (r: Vec<(String, usize)>)
    ensures
        lists(node_ids(*m), r@),
{
    m.iter().map(|(name, id)| (name.clone(), *id)).collect()
}

} // verus!
