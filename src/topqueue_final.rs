//! A queue that retains the largest `capacity` items inserted into it, over
//! any totally ordered item type.
//!
//! At capacity, an item equal to the smallest one retained replaces it; the
//! retained values are the same either way.
use crate::min_heap::MinHeap;
use crate::order::{ascending, descending, leq, lemma_min_of, min_of, total_order};
use crate::selection::{bounded, is_top_k, lemma_offer_keeps_top_k, offer};
use core::cmp::Ordering;
use vstd::multiset::Multiset;
use vstd::prelude::*;
use vstd::relations::sorted_by;
use vstd::std_specs::cmp::OrdSpec;

verus! {

broadcast use vstd::seq_lib::group_to_multiset_ensures, vstd::multiset::group_multiset_axioms;

/// A collection that retains the largest `capacity` items inserted into it.
pub struct TopQueue<T: Ord> {
    capacity: usize,
    queue: MinHeap<T>,
}

impl<T: Ord> View for TopQueue<T> {
    type V = Multiset<T>;

    /// The items retained.
    closed spec fn view(&self) -> Multiset<T> {
        self.queue@
    }
}

impl<T: Ord> TopQueue<T> {
    /// The heap is well formed and holds no more than `capacity` items.
    pub closed spec fn wf(&self) -> bool {
        &&& self.queue.wf()
        &&& self.queue@.len() <= self.capacity
    }

    /// The maximum number of items retained.
    pub closed spec fn spec_capacity(&self) -> usize {
        self.capacity
    }

    /// Creates an empty queue that tracks the largest `capacity` inserted items.
    pub fn new(capacity: usize) -> (r: Self)
        ensures
            r.wf(),
            r@ == Multiset::<T>::empty(),
            r.capacity() == capacity,
    {
        TopQueue { capacity, queue: MinHeap::new() }
    }

    /// Returns the maximum number of values the queue will retain.
    #[verifier::when_used_as_spec(spec_capacity)]
    pub fn capacity(&self) -> (r: usize)
        ensures
            r == self.spec_capacity(),
    {
        self.capacity
    }

    /// Creates a queue of capacity `capacity` with the elements of `items`
    /// pushed into it in order; it then holds the largest `capacity` of them.
    pub fn from_iter(capacity: usize, items: Vec<T>) -> (r: Self)
        requires
            total_order::<T>(),
        ensures
            r.wf(),
            r.capacity() == capacity,
            is_top_k(r@, items@.to_multiset(), capacity as nat),
            r@.len() == bounded(capacity as nat, items@.len()),
    {
        let ghost s = items@;
        let mut q = TopQueue::new(capacity);
        proof {
            assert(s.take(0) =~= Seq::<T>::empty());
        }
        for x in it: items
            invariant
                total_order::<T>(),
                it.seq() == s,
                q.wf(),
                q.capacity() == capacity,
                is_top_k(q@, s.take(it.index() as int).to_multiset(), capacity as nat),
        {
            proof {
                let i = it.index() as int;
                lemma_offer_keeps_top_k(q@, s.take(i).to_multiset(), x, capacity as nat);
                assert(s.take(i + 1) =~= s.take(i).push(x));
            }
            q.push(x);
        }
        proof {
            assert(s.take(s.len() as int) =~= s);
        }
        q
    }

    /// Returns the retained items from smallest to largest, consuming the queue.
    pub fn into_vec(self) -> (r: Vec<T>)
        requires
            self.wf(),
            total_order::<T>(),
        ensures
            r@.to_multiset() == self@,
            sorted_by(r@, ascending::<T>()),
    {
        self.queue.into_sorted_vec()
    }

    /// Returns the retained items from largest to smallest, consuming the queue.
    pub fn export_sorted(self) -> (r: Vec<T>)
        requires
            self.wf(),
            total_order::<T>(),
        ensures
            r@.to_multiset() == self@,
            sorted_by(r@, descending::<T>()),
    {
        let mut asc = self.into_vec();
        let ghost a = asc@;
        let mut out: Vec<T> = Vec::new();
        while asc.len() > 0
            invariant
                a.len() == asc@.len() + out@.len(),
                asc@ == a.take(asc@.len() as int),
                forall|i: int| 0 <= i < out@.len() ==> #[trigger] out@[i] == a[a.len() - 1 - i],
            decreases asc@.len(),
        {
            let x = asc.pop().unwrap();
            out.push(x);
            assert(asc@ =~= a.take(asc@.len() as int));
        }
        proof {
            assert(out@ =~= a.reverse());
            assert forall|i: int, j: int| 0 <= i < j < out@.len() implies #[trigger] descending::<T>()(
                out@[i],
                out@[j],
            ) by {
                assert(ascending::<T>()(a[a.len() - 1 - j], a[a.len() - 1 - i]));
            }
            a.lemma_reverse_to_multiset();
        }
        out
    }

    /// Returns true if no item is retained.
    pub fn is_empty(&self) -> (r: bool)
        ensures
            r == (self@.len() == 0),
    {
        self.queue.len() == 0
    }

    /// Returns the number of items retained; never more than the capacity.
    pub fn len(&self) -> (r: usize)
        requires
            self.wf(),
        ensures
            r == self@.len(),
            r <= self.capacity(),
    {
        self.queue.len()
    }

    /// Offers `item`: below capacity it is inserted; at capacity it replaces
    /// the smallest item retained unless it is smaller than that item.
    pub fn push(&mut self, item: T)
        requires
            old(self).wf(),
            total_order::<T>(),
        ensures
            final(self).wf(),
            final(self).capacity() == old(self).capacity(),
            final(self)@ == offer(old(self)@, item, old(self).capacity() as nat),
    {
        if self.queue.len() < self.capacity {
            self.queue.push(item);
        } else {
            let ghost mn = min_of(self.queue@);
            let replace = match self.queue.peek() {
                Some(m) => {
                    proof {
                        lemma_min_of(self.queue@, *m);
                    }
                    let c = m.cmp(&item);
                    assert(c == mn.cmp_spec(&item));
                    !matches!(c, Ordering::Greater)
                },
                None => false,
            };
            if replace {
                let ghost before = self.queue@;
                assert(leq(mn, item));
                let popped = self.queue.pop();
                proof {
                    lemma_min_of(before, popped->0);
                }
                self.queue.push(item);
                proof {
                    if leq(item, mn) {
                        assert(item == mn);
                        assert(before.remove(mn).insert(mn) =~= before);
                    }
                }
            }
        }
    }
}

} // verus!
