//! Ordering keys. Sweeps and rankings order items by packing their sort
//! key into one `u64` whose numeric order is the intended order; std's
//! sort then orders the keys.

use vstd::prelude::*;

verus! {

/// `v` is in ascending order.
pub open spec fn sorted_u64(v: Seq<u64>) -> bool {
    forall|i: int, j: int| 0 <= i < j < v.len() ==> v[i] <= v[j]
}

/// Sorts with std's `slice::sort_unstable`, which puts the elements of
/// the slice in ascending order; the result holds the same elements.
#[verifier::external_body]
pub(crate) fn sort_u64(v: &mut Vec<u64>)
    ensures
        sorted_u64(final(v)@),
        final(v)@.to_multiset() == old(v)@.to_multiset(),
{
    v.sort_unstable();
}

} // verus!
