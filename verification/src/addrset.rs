//! Address sets: their addresses as a sequence, and the ordering model of
//! their keys.

use std::collections::BTreeSet;
use vstd::prelude::*;

verus! {

broadcast use vstd::std_specs::btree::group_btree_axioms;

/// The addresses of `set`, each once, in the set's iteration order.
pub fn addresses_of(set: &BTreeSet<u64>) -> (r: Vec<u64>)
    ensures
        r@.to_set() == set@,
        r@.no_duplicates(),
        r@.len() == set@.len(),
{
    let ghost ks = vstd::std_specs::iter::IteratorSpec::remaining(
        &vstd::std_specs::btree::spec_btree_keys_iter(set),
    );
    let mut v: Vec<u64> = Vec::new();
    for a in it: set.iter()
        invariant
            it.seq() == ks,
            v@ == ks.take(it.index()).map_values(|x: &u64| *x),
    {
        v.push(*a);
        proof {
            assert(v@ =~= ks.take(it.index() + 1).map_values(|x: &u64| *x));
        }
    }
    proof {
        assert(v@ =~= ks.map_values(|x: &u64| *x));
        assert(v@ =~= ks.unref());
        assert(ks.no_duplicates());
        assert forall|i: int, j: int| 0 <= i < v@.len() && 0 <= j < v@.len() && i != j implies v@[i] != v@[j] by {
            assert(ks[i] != ks[j]);
        }
    }
    v
}

/// `u64` keys follow the ordering model of the standard collections.
pub proof fn lemma_u64_keys_ordered()
    ensures
        vstd::laws_cmp::obeys_cmp::<u64>(),
{
    broadcast use vstd::laws_cmp::group_laws_cmp;
}

} // verus!
