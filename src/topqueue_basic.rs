//! A queue that retains the largest `capacity` `i32` values inserted into it.
//!
//! At capacity, a value equal to the smallest one retained is ignored.
use crate::min_heap::MinHeap;
use crate::order::{ascending, lemma_i32_total_order, lemma_min_of, min_of};
use crate::selection::offer;
use vstd::multiset::Multiset;
use vstd::prelude::*;
use vstd::relations::sorted_by;

verus! {

/// A collection that retains the largest `capacity` values inserted into it.
pub struct TopQueue {
    capacity: usize,
    queue: MinHeap<i32>,
}

impl View for TopQueue {
    type V = Multiset<i32>;

    /// The values retained.
    closed spec fn view(&self) -> Multiset<i32> {
        self.queue@
    }
}

impl TopQueue {
    /// The heap is well formed and holds no more than `capacity` values.
    pub closed spec fn wf(&self) -> bool {
        &&& self.queue.wf()
        &&& self.queue@.len() <= self.capacity
    }

    /// The maximum number of values retained.
    pub closed spec fn spec_capacity(&self) -> usize {
        self.capacity
    }

    /// Creates an empty queue that tracks the largest `capacity` inserted values.
    pub fn new(capacity: usize) -> (r: Self)
        ensures
            r.wf(),
            r@ == Multiset::<i32>::empty(),
            r.capacity() == capacity,
    {
        TopQueue { capacity, queue: MinHeap::new() }
    }

    /// Returns the maximum number of values the queue will retain.
    #[verifier::when_used_as_spec(spec_capacity)]
    pub fn capacity(&self) -> (r: usize)
        ensures
            r == self.spec_capacity(),
    {
        self.capacity
    }

    /// Returns the retained values, consuming the queue; they come out from
    /// smallest to largest.
    pub fn into_vec(self) -> (r: Vec<i32>)
        requires
            self.wf(),
        ensures
            r@.to_multiset() == self@,
            sorted_by(r@, ascending::<i32>()),
    {
        proof {
            lemma_i32_total_order();
        }
        self.queue.into_sorted_vec()
    }

    /// Returns true if no value is retained.
    pub fn is_empty(&self) -> (r: bool)
        ensures
            r == (self@.len() == 0),
    {
        self.queue.len() == 0
    }

    /// Returns the number of values retained; never more than the capacity.
    pub fn len(&self) -> (r: usize)
        requires
            self.wf(),
        ensures
            r == self@.len(),
            r <= self.capacity(),
    {
        self.queue.len()
    }

    /// Offers `n`: below capacity it is inserted; at capacity it replaces the
    /// smallest value retained when it is greater than that value.
    pub fn push(&mut self, n: i32)
        requires
            old(self).wf(),
        ensures
            final(self).wf(),
            final(self).capacity() == old(self).capacity(),
            final(self)@ == offer(old(self)@, n, old(self).capacity() as nat),
    {
        proof {
            lemma_i32_total_order();
        }
        if self.queue.len() < self.capacity {
            self.queue.push(n);
        } else {
            let ghost mn = min_of(self.queue@);
            let replace = match self.queue.peek() {
                Some(m) => {
                    proof {
                        lemma_min_of(self.queue@, *m);
                    }
                    n > *m
                },
                None => false,
            };
            if replace {
                let ghost before = self.queue@;
                let popped = self.queue.pop();
                proof {
                    lemma_min_of(before, popped->0);
                }
                self.queue.push(n);
            }
        }
    }
}

} // verus!
