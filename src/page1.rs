//! Random test data, and the largest values of a vector.
use crate::order::sort_desc;
use crate::selection::bounded;
use vstd::prelude::*;

verus! {

/// Relies on `rand::random`, a value drawn from the thread-local generator;
/// nothing is known of the value drawn.
pub assume_specification<T>[ rand::random::<T> ]() -> T
    where
        rand::distributions::Standard: rand::distributions::Distribution<T>,
;

/// Creates `len` random numbers.
pub fn make_rands(len: usize) -> (r: Vec<i32>)
    ensures
        r@.len() == len,
{
    let mut v: Vec<i32> = Vec::new();
    let mut i: usize = 0;
    while i < len
        invariant
            i <= len,
            v@.len() == i,
        decreases len - i,
    {
        let x: i32 = rand::random::<i32>();
        v.push(x);
        i = i + 1;
    }
    v
}

/// Returns the `top` largest values of `vec`, largest first: `vec` sorted
/// from largest to smallest and cut to its first `top` values.
pub fn get_top(vec: &Vec<i32>, top: usize) -> (r: Vec<i32>)
    ensures
        r@ == sort_desc(vec@).take(bounded(top as nat, vec@.len()) as int),
{
    crate::util::get_top(vec.as_slice(), top)
}

} // verus!
