//! Sets of chain indices, kept in a `BTreeSet` and read back in
//! ascending order.
use vstd::prelude::*;
use std::collections::BTreeSet;
use vstd::std_specs::iter::IteratorSpec;
use vstd::std_specs::cmp::OrdSpec;

verus! {

broadcast use vstd::laws_cmp::group_laws_cmp, vstd::std_specs::btree::group_btree_axioms;

/// Adds `x` to the set.
pub(crate) fn add(set: &mut BTreeSet<usize>, x: usize)
    ensures
        final(set)@ == old(set)@.insert(x),
{
    set.insert(x);
}

/// The members of the set, in ascending order.
pub(crate) fn ascending(set: &BTreeSet<usize>) -> (v: Vec<usize>)
    ensures
        forall|a: int, b: int| 0 <= a < b < v@.len() ==> #[trigger] v@[a] < #[trigger] v@[b],
        forall|y: usize| v@.contains(y) <==> set@.contains(y),
{
    let ghost sq = vstd::std_specs::btree::spec_btree_keys_iter(set).remaining().unref();
    let mut v: Vec<usize> = Vec::new();
    for x in it: set.iter()
        invariant
            it.seq().unref() == sq,
            v@ == sq.take(it.index()),
        ensures
            v@ == sq,
    {
        v.push(*x);
    }
    proof {
        let r = vstd::std_specs::btree::spec_btree_keys_iter(set).remaining();
        vstd::std_specs::btree::axiom_spec_btree_keys_iter(set);
        vstd::std_specs::btree::axiom_increasing_seq_meaning::<&usize>(r);
        assert forall|a: int, b: int| 0 <= a < b < v@.len() implies #[trigger] v@[a] < #[trigger] v@[b] by {
            assert(OrdSpec::cmp_spec(&r[a], &r[b]) is Less);
        }
    }
    v
}

} // verus!
