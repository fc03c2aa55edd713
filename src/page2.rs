//! A queue of fixed size that retains the largest `i32` values pushed into
//! it, with a constructor that fills it from a sequence.
//!
//! At capacity, a value equal to the smallest one retained is ignored.
use crate::min_heap::MinHeap;
use crate::order::{ascending, lemma_i32_total_order, lemma_min_of, min_of};
use crate::selection::{bounded, is_top_k, lemma_offer_keeps_top_k, offer};
use vstd::multiset::Multiset;
use vstd::prelude::*;
use vstd::relations::sorted_by;

verus! {

broadcast use vstd::seq_lib::group_to_multiset_ensures, vstd::multiset::group_multiset_axioms;

/// A collection that retains the largest `size` values inserted into it.
pub struct TopQueue {
    size: usize,
    queue: MinHeap<i32>,
}

impl View for TopQueue {
    type V = Multiset<i32>;

    /// The values retained.
    closed spec fn view(&self) -> Multiset<i32> {
        self.queue@
    }
}

impl TopQueue {
    /// The heap is well formed and holds no more than `size` values.
    pub closed spec fn wf(&self) -> bool {
        &&& self.queue.wf()
        &&& self.queue@.len() <= self.size
    }

    /// The maximum number of values retained.
    pub closed spec fn spec_size(&self) -> usize {
        self.size
    }

    /// Creates an empty queue that tracks the largest `size` inserted values.
    pub fn new(size: usize) -> (r: Self)
        ensures
            r.wf(),
            r@ == Multiset::<i32>::empty(),
            r.size() == size,
    {
        TopQueue { size, queue: MinHeap::new() }
    }

    /// Creates a queue of size `size` with the elements of `items` pushed
    /// into it in order; it then holds the largest `size` of them.
    pub fn from_iter(size: usize, items: Vec<i32>) -> (r: Self)
        ensures
            r.wf(),
            r.size() == size,
            is_top_k(r@, items@.to_multiset(), size as nat),
            r@.len() == bounded(size as nat, items@.len()),
    {
        proof {
            lemma_i32_total_order();
        }
        let ghost s = items@;
        let mut q = TopQueue::new(size);
        proof {
            assert(s.take(0) =~= Seq::<i32>::empty());
        }
        for x in it: items
            invariant
                it.seq() == s,
                q.wf(),
                q.size() == size,
                is_top_k(q@, s.take(it.index() as int).to_multiset(), size as nat),
        {
            proof {
                let i = it.index() as int;
                lemma_i32_total_order();
                lemma_offer_keeps_top_k(q@, s.take(i).to_multiset(), x, size as nat);
                assert(s.take(i + 1) =~= s.take(i).push(x));
            }
            q.push(x);
        }
        proof {
            assert(s.take(s.len() as int) =~= s);
        }
        q
    }

    /// Returns the maximum number of values the queue will retain; unlike
    /// the number held, it never changes.
    #[verifier::when_used_as_spec(spec_size)]
    pub fn size(&self) -> (r: usize)
        ensures
            r == self.spec_size(),
    {
        self.size
    }

    /// Returns the retained values, consuming the queue; they come out from
    /// smallest to largest.
    pub fn into_vec(self) -> (r: Vec<i32>)
        requires
            self.wf(),
        ensures
            r@.to_multiset() == self@,
            sorted_by(r@, ascending::<i32>()),
    {
        proof {
            lemma_i32_total_order();
        }
        self.queue.into_sorted_vec()
    }

    /// Returns the number of values retained; never more than the size.
    pub fn len(&self) -> (r: usize)
        requires
            self.wf(),
        ensures
            r == self@.len(),
            r <= self.size(),
    {
        self.queue.len()
    }

    /// Offers `n`: below the size it is inserted; at the size it replaces the
    /// smallest value retained when it is greater than that value.
    pub fn push(&mut self, n: i32)
        requires
            old(self).wf(),
        ensures
            final(self).wf(),
            final(self).size() == old(self).size(),
            final(self)@ == offer(old(self)@, n, old(self).size() as nat),
    {
        proof {
            lemma_i32_total_order();
        }
        if self.queue.len() < self.size() {
            self.queue.push(n);
        } else {
            let ghost mn = min_of(self.queue@);
            let replace = match self.queue.peek() {
                Some(m) => {
                    proof {
                        lemma_min_of(self.queue@, *m);
                    }
                    n > *m
                },
                None => false,
            };
            if replace {
                let ghost before = self.queue@;
                let popped = self.queue.pop();
                proof {
                    lemma_min_of(before, popped->0);
                }
                self.queue.push(n);
            }
        }
    }
}

} // verus!
