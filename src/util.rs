//! Selecting the largest values of a slice.
use crate::order::{lemma_i32_total_order, sort_desc};
use crate::selection::{bounded, lemma_top_k_is_sorted_prefix};
use crate::topqueue_final::TopQueue;
use vstd::prelude::*;

verus! {

/// Returns the `top` largest values of `nums`, largest first: `nums` sorted
/// from largest to smallest and cut to its first `top` values.
pub fn get_top(nums: &[i32], top: usize) -> (r: Vec<i32>)
    ensures
        r@ == sort_desc(nums@).take(bounded(top as nat, nums@.len()) as int),
{
    proof {
        lemma_i32_total_order();
    }
    let mut copy: Vec<i32> = Vec::new();
    let mut i: usize = 0;
    while i < nums.len()
        invariant
            i <= nums@.len(),
            copy@ == nums@.take(i as int),
        decreases nums@.len() - i,
    {
        copy.push(nums[i]);
        i = i + 1;
        assert(copy@ =~= nums@.take(i as int));
    }
    assert(copy@ =~= nums@);
    let q = TopQueue::from_iter(top, copy);
    let r = q.export_sorted();
    proof {
        lemma_top_k_is_sorted_prefix(nums@, top as nat, r@);
    }
    r
}

} // verus!
