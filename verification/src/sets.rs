//! Sets of tile indices, kept in order.

use crate::shape::ascending;
use std::collections::BTreeSet;
use vstd::prelude::*;
use vstd::std_specs::btree::{axiom_increasing_seq_meaning, increasing_seq, spec_btree_keys_iter};
use vstd::std_specs::cmp::OrdSpec;
use vstd::std_specs::iter::IteratorSpec;

verus! {

broadcast use {vstd::std_specs::btree::group_btree_axioms, vstd::laws_cmp::group_laws_cmp};

/// Puts `n` into `set`.
pub(crate) fn put(set: &mut BTreeSet<usize>, n: usize)
    ensures
        final(set)@ == old(set)@.insert(n),
{
    set.insert(n);
}

/// Keys that come in increasing order are ascending numbers.
proof fn keys_ascend(keys: Seq<&usize>)
    requires
        increasing_seq(keys),
    ensures
        ascending(keys.unref()),
{
    axiom_increasing_seq_meaning::<&usize>(keys);
    let out = keys.unref();
    assert forall|i: int, j: int| 0 <= i < j < out.len() implies out[i] < out[j] by {
        assert(OrdSpec::cmp_spec(&keys[i], &keys[j]) is Less);
    }
}

/// What `set` holds, in ascending order.
pub(crate) fn in_order(set: &BTreeSet<usize>) -> (out: Vec<usize>)
    ensures
        ascending(out@),
        forall|j: usize| out@.contains(j) <==> set@.contains(j),
{
    let mut out: Vec<usize> = Vec::new();
    let ghost keys = spec_btree_keys_iter(set).remaining();
    for x in it: set.iter()
        invariant
            it.seq() == keys,
            out@.len() == it.index(),
            forall|k: int| 0 <= k < out@.len() ==> out@[k] == *it.seq()[k],
    {
        out.push(*x);
    }
    proof {
        assert(out@.len() == keys.len());
        assert(out@ == keys.unref());
        keys_ascend(keys);
        assert(keys.unref().to_set() == set@);
        assert forall|j: usize| out@.contains(j) <==> set@.contains(j) by {
            assert(out@.to_set().contains(j) <==> out@.contains(j));
        }
    }
    out
}

} // verus!
