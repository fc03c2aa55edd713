//! An array-backed binary min-heap: the smallest element sits at index 0,
//! and every element is not smaller than its parent.
use crate::order::{ascending, is_min, leq, total_order};
use vstd::relations::sorted_by;
use core::cmp::Ordering;
use vstd::multiset::Multiset;
use vstd::prelude::*;
use vstd::std_specs::cmp::OrdSpec;

verus! {

broadcast use vstd::seq_lib::group_to_multiset_ensures, vstd::multiset::group_multiset_axioms;

/// Index of the parent of node `i` in the implicit tree.
pub open spec fn parent(i: int) -> int {
    (i - 1) / 2
}

/// Every node other than the root is not smaller than its parent.
pub open spec fn heap_ordered<T: Ord>(s: Seq<T>) -> bool {
    forall|i: int| 0 < i < s.len() ==> leq(s[parent(i)], #[trigger] s[i])
}

/// Heap order holds at every node except possibly at node `k`.
spec fn ordered_except<T: Ord>(s: Seq<T>, k: int) -> bool {
    forall|i: int| 0 < i < s.len() && i != k ==> leq(s[parent(i)], #[trigger] s[i])
}

/// Heap order holds at every node whose parent is not `k`.
spec fn ordered_below_except<T: Ord>(s: Seq<T>, k: int) -> bool {
    forall|i: int| 0 < i < s.len() && parent(i) != k ==> leq(s[parent(i)], #[trigger] s[i])
}

/// The children of `k` are not smaller than the parent of `k`.
spec fn bridged<T: Ord>(s: Seq<T>, k: int) -> bool {
    k > 0 ==> forall|c: int|
        0 < c < s.len() && parent(c) == k ==> leq(s[parent(k)], #[trigger] s[c])
}

/// Relies on `slice::swap`: it exchanges the elements at the two indices.
#[verifier::external_body]
fn swap_elems<T>(v: &mut Vec<T>, i: usize, j: usize)
    requires
        i < old(v).len(),
        j < old(v).len(),
    ensures
        final(v)@ == old(v)@.update(i as int, old(v)@[j as int]).update(j as int, old(v)@[i as int]),
{
    v.swap(i, j);
}

/// Exchanging two elements keeps the multiset of a sequence.
proof fn lemma_swap_multiset<T>(s: Seq<T>, i: int, j: int)
    requires
        0 <= i < s.len(),
        0 <= j < s.len(),
    ensures
        s.update(i, s[j]).update(j, s[i]).to_multiset() == s.to_multiset(),
{
    let s1 = s.update(i, s[j]);
    assert(s1.to_multiset() == s.to_multiset().insert(s[j]).remove(s[i]));
    assert(s1.update(j, s[i]).to_multiset() == s1.to_multiset().insert(s[i]).remove(s1[j]));
    if i == j {
        assert(s1 =~= s);
        assert(s1.update(j, s[i]) =~= s);
    } else {
        assert(s1[j] == s[j]);
        assert(s.to_multiset().insert(s[j]).remove(s[i]).insert(s[i]).remove(s[j])
            =~= s.to_multiset());
    }
}

/// In a heap-ordered sequence the root is not greater than any element.
proof fn lemma_root_le<T: Ord>(s: Seq<T>, i: int)
    requires
        total_order::<T>(),
        heap_ordered(s),
        0 <= i < s.len(),
    ensures
        leq(s[0], s[i]),
    decreases i,
{
    if i > 0 {
        lemma_root_le(s, parent(i));
        assert(leq(s[parent(i)], s[i]));
    }
}

/// The root of a non-empty heap-ordered sequence is a smallest element.
proof fn lemma_root_is_min<T: Ord>(s: Seq<T>)
    requires
        total_order::<T>(),
        heap_ordered(s),
        s.len() > 0,
    ensures
        is_min(s.to_multiset(), s[0]),
{
    assert(s.contains(s[0]));
    assert forall|y: T| #[trigger] s.to_multiset().contains(y) implies leq(s[0], y) by {
        assert(s.contains(y));
        let i = choose|i: int| 0 <= i < s.len() && s[i] == y;
        lemma_root_le(s, i);
    }
}

/// A binary min-heap over a vector.
pub struct MinHeap<T> {
    data: Vec<T>,
}

impl<T: Ord> View for MinHeap<T> {
    type V = Multiset<T>;

    closed spec fn view(&self) -> Multiset<T> {
        self.data@.to_multiset()
    }
}

impl<T: Ord> MinHeap<T> {
    /// The heap order holds.
    pub closed spec fn wf(&self) -> bool {
        heap_ordered(self.data@)
    }

    /// An empty heap.
    pub fn new() -> (r: Self)
        ensures
            r.wf(),
            r@ == Multiset::<T>::empty(),
    {
        let r = MinHeap { data: Vec::new() };
        assert(r.data@ =~= Seq::<T>::empty());
        r
    }

    /// The number of elements held.
    pub fn len(&self) -> (r: usize)
        ensures
            r == self@.len(),
    {
        self.data.len()
    }

    /// A smallest element, or `None` when the heap is empty.
    pub fn peek(&self) -> (r: Option<&T>)
        requires
            self.wf(),
            total_order::<T>(),
        ensures
            r is None <==> self@.len() == 0,
            r matches Some(x) ==> is_min(self@, *x),
    {
        if self.data.len() == 0 {
            None
        } else {
            proof {
                lemma_root_is_min(self.data@);
            }
            Some(&self.data[0])
        }
    }

    /// Adds `item`.
    pub fn push(&mut self, item: T)
        requires
            old(self).wf(),
            total_order::<T>(),
        ensures
            final(self).wf(),
            final(self)@ == old(self)@.insert(item),
    {
        self.data.push(item);
        let mut k: usize = self.data.len() - 1;
        let mut done = false;
        while k > 0 && !done
            invariant
                total_order::<T>(),
                k < self.data.len(),
                self.data@.to_multiset() == old(self)@.insert(item),
                ordered_except(self.data@, k as int),
                bridged(self.data@, k as int),
                done ==> heap_ordered(self.data@),
            decreases k, (if done { 0int } else { 1int }),
        {
            let p: usize = (k - 1) / 2;
            let c = self.data[p].cmp(&self.data[k]);
            if !matches!(c, Ordering::Greater) {
                done = true;
            } else {
                proof {
                    lemma_swap_multiset(self.data@, p as int, k as int);
                }
                let ghost s = self.data@;
                swap_elems(&mut self.data, p, k);
                assert(ordered_except(self.data@, p as int)) by {
                    assert forall|i: int| 0 < i < self.data@.len() && i != p implies
                        leq(self.data@[parent(i)], #[trigger] self.data@[i]) by {
                        if i == k {
                            assert(leq(s[k as int], s[p as int]));
                        } else if parent(i) == k {
                            assert(leq(s[p as int], s[i]));
                        } else if parent(i) == p {
                            assert(leq(s[k as int], s[p as int]));
                            assert(leq(s[p as int], s[i]));
                        }
                    }
                }
                assert(bridged(self.data@, p as int)) by {
                    if p > 0 {
                        assert(leq(s[parent(p as int)], s[p as int]));
                        assert forall|c: int| 0 < c < self.data@.len() && parent(c) == p implies
                            leq(self.data@[parent(p as int)], #[trigger] self.data@[c]) by {
                            if c != k {
                                assert(leq(s[p as int], s[c]));
                            }
                        }
                    }
                }
                k = p;
            }
        }
    }

    /// Removes and returns a smallest element, or `None` when the heap is empty.
    pub fn pop(&mut self) -> (r: Option<T>)
        requires
            old(self).wf(),
            total_order::<T>(),
        ensures
            final(self).wf(),
            old(self)@.len() == 0 ==> r is None && final(self)@ == old(self)@,
            old(self)@.len() > 0 ==> (r matches Some(x) && is_min(old(self)@, x) && final(self)@
                == old(self)@.remove(x)),
    {
        let n = self.data.len();
        if n == 0 {
            return None;
        }
        proof {
            lemma_root_is_min(self.data@);
            lemma_swap_multiset(self.data@, 0, n - 1);
        }
        let ghost s = self.data@.update(0, self.data@[n - 1]).update(n - 1, self.data@[0]);
        swap_elems(&mut self.data, 0, n - 1);
        let top = self.data.pop().unwrap();
        proof {
            assert(s =~= self.data@.push(top));
            assert(old(self)@ == self.data@.to_multiset().insert(top));
            assert(self.data@.to_multiset() =~= old(self)@.remove(top));
            assert(ordered_below_except(self.data@, 0)) by {
                assert forall|i: int| 0 < i < self.data@.len() && parent(i) != 0 implies
                    leq(self.data@[parent(i)], #[trigger] self.data@[i]) by {
                    assert(old(self).data@[i] == self.data@[i]);
                    assert(old(self).data@[parent(i)] == self.data@[parent(i)]);
                }
            }
        }
        let n = n - 1;
        let mut k: usize = 0;
        let mut done = n < 2;
        while !done
            invariant
                total_order::<T>(),
                n == self.data.len(),
                k < n || n == 0,
                self.data@.to_multiset() == old(self)@.remove(top),
                ordered_below_except(self.data@, k as int),
                bridged(self.data@, k as int),
                done ==> heap_ordered(self.data@),
                !done ==> n >= 2,
            decreases n - k, (if done { 0int } else { 1int }),
        {
            if k > (n - 2) / 2 {
                assert(heap_ordered(self.data@)) by {
                    assert forall|i: int| 0 < i < self.data@.len() implies leq(
                        self.data@[parent(i)],
                        #[trigger] self.data@[i],
                    ) by {
                        assert(parent(i) != k);
                    }
                }
                done = true;
            } else {
                let l: usize = 2 * k + 1;
                let mut m: usize = l;
                if l + 1 < n && matches!(self.data[l].cmp(&self.data[l + 1]), Ordering::Greater) {
                    m = l + 1;
                }
                let ghost s = self.data@;
                assert(leq(s[m as int], s[l as int]));
                assert(l + 1 < n ==> leq(s[m as int], s[l + 1]));
                if !matches!(self.data[k].cmp(&self.data[m]), Ordering::Greater) {
                    assert(heap_ordered(self.data@)) by {
                        assert forall|i: int| 0 < i < self.data@.len() implies leq(
                            s[parent(i)],
                            #[trigger] s[i],
                        ) by {
                            if parent(i) == k {
                                assert(i == l || i == l + 1);
                                assert(leq(s[k as int], s[m as int]));
                            }
                        }
                    }
                    done = true;
                } else {
                    proof {
                        lemma_swap_multiset(self.data@, k as int, m as int);
                    }
                    swap_elems(&mut self.data, k, m);
                    assert(leq(s[m as int], s[k as int]));
                    assert(ordered_below_except(self.data@, m as int)) by {
                        assert forall|i: int| 0 < i < self.data@.len() && parent(i) != m implies
                            leq(self.data@[parent(i)], #[trigger] self.data@[i]) by {
                            if i == m {
                            } else if parent(i) == k {
                                assert(i == l || i == l + 1);
                            } else if i == k {
                                assert(leq(s[parent(k as int)], s[m as int]));
                            }
                        }
                    }
                    assert(bridged(self.data@, m as int)) by {
                        assert forall|c: int| 0 < c < self.data@.len() && parent(c) == m implies
                            leq(self.data@[parent(m as int)], #[trigger] self.data@[c]) by {
                            assert(leq(s[m as int], s[c]));
                        }
                    }
                    k = m;
                }
            }
        }
        Some(top)
    }

    /// Returns all elements from smallest to largest, consuming the heap.
    pub fn into_sorted_vec(self) -> (r: Vec<T>)
        requires
            self.wf(),
            total_order::<T>(),
        ensures
            r@.to_multiset() == self@,
            sorted_by(r@, ascending::<T>()),
    {
        let mut heap = self;
        let mut out: Vec<T> = Vec::new();
        let ghost all = heap@;
        while heap.len() > 0
            invariant
                total_order::<T>(),
                heap.wf(),
                out@.to_multiset().add(heap@) == all,
                sorted_by(out@, ascending::<T>()),
                out@.len() > 0 ==> forall|y: T| #[trigger] heap@.contains(y) ==> leq(out@.last(), y),
            decreases heap@.len(),
        {
            let ghost before = heap@;
            let x = heap.pop().unwrap();
            proof {
                assert(before.contains(x));
                assert forall|y: T| #[trigger] heap@.contains(y) implies leq(x, y) by {
                    assert(before.contains(y));
                }
                assert forall|a: int, b: int| 0 <= a < b < out@.len() + 1 implies #[trigger] ascending::<T>()(
                    out@.push(x)[a],
                    out@.push(x)[b],
                ) by {
                    if b == out@.len() {
                        assert(leq(out@.last(), x));
                        if a < out@.len() - 1 {
                            assert(ascending::<T>()(out@[a], out@[out@.len() - 1]));
                        }
                        assert(leq(out@[a], x));
                    } else {
                        assert(ascending::<T>()(out@[a], out@[b]));
                    }
                }
                assert(out@.push(x).to_multiset().add(heap@) =~= all);
            }
            out.push(x);
        }
        proof {
            assert(heap@ =~= Multiset::empty());
            assert(out@.to_multiset().add(heap@) =~= out@.to_multiset());
        }
        out
    }
}

} // verus!
