//! The total order that the heap and the queues rely on, stated over
//! `Ord::cmp` as Verus specifies it.
use core::cmp::Ordering;
use vstd::multiset::Multiset;
use vstd::prelude::*;
use vstd::relations::{sorted_by, total_ordering};
use vstd::std_specs::cmp::OrdSpec;

verus! {

/// `a` is not greater than `b` under `T`'s ordering.
pub open spec fn leq<T: Ord>(a: T, b: T) -> bool {
    a.cmp_spec(&b) != Ordering::Greater
}

/// `T::cmp` is a total order whose equal elements are identical.
pub open spec fn total_order<T: Ord>() -> bool {
    &&& T::obeys_cmp_spec()
    &&& forall|a: T| #[trigger] leq(a, a)
    &&& forall|a: T, b: T| #![trigger leq(a, b)] #![trigger leq(b, a)] leq(a, b) || leq(b, a)
    &&& forall|a: T, b: T| #[trigger] leq(a, b) && #[trigger] leq(b, a) ==> a == b
    &&& forall|a: T, b: T, c: T| #[trigger] leq(a, b) && #[trigger] leq(b, c) ==> leq(a, c)
}

/// `x` is a smallest element of `m`.
pub open spec fn is_min<T: Ord>(m: Multiset<T>, x: T) -> bool {
    &&& m.contains(x)
    &&& forall|y: T| #[trigger] m.contains(y) ==> leq(x, y)
}

/// The smallest element of a non-empty multiset.
pub open spec fn min_of<T: Ord>(m: Multiset<T>) -> T {
    choose|x: T| is_min(m, x)
}

/// The ascending order, as a relation.
pub open spec fn ascending<T: Ord>() -> spec_fn(T, T) -> bool {
    |a: T, b: T| leq(a, b)
}

/// The descending order, as a relation.
pub open spec fn descending<T: Ord>() -> spec_fn(T, T) -> bool {
    |a: T, b: T| leq(b, a)
}

/// `s` sorted from largest to smallest.
pub open spec fn sort_desc<T: Ord>(s: Seq<T>) -> Seq<T> {
    s.sort_by(descending::<T>())
}

/// A smallest element, where there is one, is the one that `min_of` names.
pub proof fn lemma_min_of<T: Ord>(m: Multiset<T>, x: T)
    requires
        total_order::<T>(),
        is_min(m, x),
    ensures
        min_of(m) == x,
{
    let y = min_of(m);
    assert(is_min(m, y));
    assert(leq(x, y) && leq(y, x));
}

/// Both directions of a total order are total orderings in vstd's sense.
pub proof fn lemma_orderings<T: Ord>()
    requires
        total_order::<T>(),
    ensures
        total_ordering(ascending::<T>()),
        total_ordering(descending::<T>()),
{
}

/// The machine integers used by the queues are totally ordered.
pub proof fn lemma_i32_total_order()
    ensures
        total_order::<i32>(),
{
}

/// Sorting `s` from largest to smallest keeps its elements and orders them.
pub proof fn lemma_sort_desc<T: Ord>(s: Seq<T>)
    requires
        total_order::<T>(),
    ensures
        sort_desc(s).to_multiset() == s.to_multiset(),
        sorted_by(sort_desc(s), descending::<T>()),
        sort_desc(s).len() == s.len(),
{
    lemma_orderings::<T>();
    s.lemma_sort_by_ensures(descending::<T>());
    vstd::seq_lib::to_multiset_len(s);
    vstd::seq_lib::to_multiset_len(sort_desc(s));
}

} // verus!
