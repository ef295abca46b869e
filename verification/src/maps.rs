//! Helpers on hash maps.

use std::collections::HashMap;
use vstd::prelude::*;

verus! {

broadcast use vstd::std_specs::hash::group_hash_axioms;

/// The keys of a map, in no particular order.
pub(crate) fn keys_of<V>(map: &HashMap<u64, V>) -> (keys: Vec<u64>)
    ensures
        keys@.no_duplicates(),
        forall|k: u64| #[trigger] keys@.contains(k) <==> map@.contains_key(k),
{
    let mut keys: Vec<u64> = Vec::new();
    for k in it: map.keys()
        invariant
            it.seq().no_duplicates(),
            it.seq().unref().to_set() == map@.dom(),
            it.seq().unref().len() == it.seq().len(),
            it.seq().unref().take(it.seq().len() as int) == it.seq().unref(),
            keys@ == it.seq().unref().take(it.index()),
    {
        keys.push(*k);
        assert(keys@ =~= it.seq().unref().take(it.index() + 1));
    }
    assert(keys@.to_set() == map@.dom());
    assert forall|k: u64| #[trigger] keys@.contains(k) <==> map@.contains_key(k) by {
        assert(keys@.to_set().contains(k) <==> map@.dom().contains(k));
    }
    keys
}

} // verus!
