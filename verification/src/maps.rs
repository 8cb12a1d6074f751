//! The keys of a hash map, in the order in which the map hands them out.

use std::collections::HashMap;
use std::hash::Hash;
use vstd::prelude::*;
use vstd::std_specs::hash::obeys_key_model;
use vstd::std_specs::iter::IteratorSpec;

verus! {

/// The keys of `m`, each once.
pub fn keys_of<K: Copy + Eq + Hash, V>(m: &HashMap<K, V>) -> (r: Vec<K>)
    requires
        obeys_key_model::<K>(),
    ensures
        r@.no_duplicates(),
        r@.to_set() == m@.dom(),
        r@.len() == m@.dom().len(),
{
    broadcast use vstd::std_specs::hash::group_hash_axioms;

    let mut r: Vec<K> = Vec::new();
    for k in it: m.keys()
        invariant
            r@ == it.seq().take(it.index()).unref(),
            it.seq() == vstd::std_specs::hash::spec_keys_iter(m).remaining(),
    {
        r.push(*k);
    }
    assert(r@ == vstd::std_specs::hash::spec_keys_iter(m).remaining().unref());
    r
}

} // verus!
