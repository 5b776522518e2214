//! Walking hash maps.

use std::collections::HashMap;
use vstd::prelude::*;
use vstd::std_specs::iter::IteratorSpec;

verus! {

broadcast use vstd::std_specs::hash::group_hash_axioms;

/// The keys of a map, each once, in whatever order it walks them.
pub fn keys_of<V>(map: &HashMap<u32, V>) -> (keys: Vec<u32>)
    ensures
        keys@.no_duplicates(),
        keys@.to_set() == map@.dom(),
{
    let mut keys: Vec<u32> = Vec::new();
    let ghost all = IteratorSpec::remaining(&vstd::std_specs::hash::spec_keys_iter(map)).unref();
    for key in iter: map.keys()
        invariant
            keys@ == all.subrange(0, iter.index() as int),
            iter.seq().unref() == all,
    {
        keys.push(*key);
    }
    assert(keys@ =~= all);
    keys
}

} // verus!
