//! What it means to keep the `k` largest values of a stream, and the laws
//! that connect the bounded queues to a full sort.
use crate::order::{descending, is_min, leq, lemma_min_of, lemma_orderings, lemma_sort_desc, min_of, sort_desc, total_order};
use vstd::multiset::Multiset;
use vstd::prelude::*;
use vstd::relations::sorted_by;

verus! {

broadcast use vstd::seq_lib::group_to_multiset_ensures, vstd::multiset::group_multiset_axioms;

/// The smaller of `k` and `n`.
pub open spec fn bounded(k: nat, n: nat) -> nat {
    if k < n {
        k
    } else {
        n
    }
}

/// What a queue that holds `m` and keeps at most `k` elements holds after
/// `x` is offered to it: below capacity `x` is added; at capacity `x`
/// replaces the smallest element when it is larger; otherwise nothing changes.
pub open spec fn offer<T: Ord>(m: Multiset<T>, x: T, k: nat) -> Multiset<T> {
    if m.len() < k {
        m.insert(x)
    } else if k > 0 && !leq(x, min_of(m)) {
        m.remove(min_of(m)).insert(x)
    } else {
        m
    }
}

/// `r` holds the `k` largest elements of `m`, or all of `m` where it has
/// fewer: it is drawn from `m`, has `min(k, |m|)` elements, and no element
/// left out is greater than an element kept.
pub open spec fn is_top_k<T: Ord>(r: Multiset<T>, m: Multiset<T>, k: nat) -> bool {
    &&& r.subset_of(m)
    &&& r.len() == bounded(k, m.len())
    &&& forall|a: T, b: T| #[trigger] r.contains(a) && #[trigger] m.sub(r).contains(b) ==> leq(b, a)
}

/// Every non-empty multiset has a smallest element.
pub proof fn lemma_min_exists<T: Ord>(m: Multiset<T>)
    requires
        total_order::<T>(),
        m.len() > 0,
    ensures
        is_min(m, min_of(m)),
    decreases m.len(),
{
    let v = m.choose();
    assert(m.contains(v));
    let rest = m.remove(v);
    if rest.len() == 0 {
        assert(rest =~= Multiset::empty());
        assert forall|y: T| #[trigger] m.contains(y) implies leq(v, y) by {
            assert(rest.count(y) == 0);
        }
        assert(is_min(m, v));
    } else {
        lemma_min_exists(rest);
        let w = min_of(rest);
        if leq(v, w) {
            assert forall|y: T| #[trigger] m.contains(y) implies leq(v, y) by {
                if y != v {
                    assert(rest.contains(y));
                }
            }
            assert(is_min(m, v));
        } else {
            assert forall|y: T| #[trigger] m.contains(y) implies leq(w, y) by {
                if y != v {
                    assert(rest.contains(y));
                }
            }
            assert(is_min(m, w));
        }
    }
}

/// Offering one more value to a queue that holds the top `k` of what it was
/// offered before yields the top `k` of everything offered.
pub proof fn lemma_offer_keeps_top_k<T: Ord>(r: Multiset<T>, m: Multiset<T>, x: T, k: nat)
    requires
        total_order::<T>(),
        is_top_k(r, m, k),
    ensures
        is_top_k(offer(r, x, k), m.insert(x), k),
{
    let m2 = m.insert(x);
    let r2 = offer(r, x, k);
    if r.len() < k {
        assert(m.sub(r).len() == 0);
        assert(m.sub(r) =~= Multiset::empty());
        assert(r =~= m) by {
            assert forall|v: T| r.count(v) == m.count(v) by {
                assert(m.sub(r).count(v) == 0);
            }
        }
        assert(m2.sub(r2) =~= Multiset::empty());
    } else if k == 0 {
        assert(r =~= Multiset::empty());
        assert(r2 == r);
    } else {
        lemma_min_exists(r);
        let mn = min_of(r);
        if !leq(x, mn) {
            assert(x != mn);
            assert(leq(mn, x));
            assert(r2 == r.remove(mn).insert(x));
            assert(r.remove(mn).len() == r.len() - 1);
            assert forall|a: T, b: T| #[trigger] r2.contains(a) && #[trigger] m2.sub(r2).contains(b)
                implies leq(b, a) by {
                if m.sub(r).contains(b) {
                    assert(leq(b, mn));
                    if a != x {
                        assert(r.contains(a));
                    }
                } else {
                    assert(b == mn);
                    if a != x {
                        assert(r.contains(a));
                    }
                }
            }
        } else {
            assert forall|a: T, b: T| #[trigger] r2.contains(a) && #[trigger] m2.sub(r2).contains(b)
                implies leq(b, a) by {
                if !m.sub(r).contains(b) {
                    assert(b == x);
                    assert(leq(mn, a));
                }
            }
        }
    }
}

/// The top `k` of the elements of a sequence sorted from largest to smallest
/// are its first `k` elements.
pub proof fn lemma_top_k_of_sorted<T: Ord>(t: Seq<T>, r: Multiset<T>, k: nat)
    requires
        total_order::<T>(),
        sorted_by(t, descending::<T>()),
        is_top_k(r, t.to_multiset(), k),
    ensures
        r == t.take(bounded(k, t.len()) as int).to_multiset(),
    decreases t.len(),
{
    let m = t.to_multiset();
    let j = bounded(k, t.len());
    if t.len() == 0 || k == 0 {
        assert(r =~= Multiset::empty());
        assert(t.take(0) =~= Seq::<T>::empty());
    } else {
        let t0 = t[0];
        assert forall|i: int| 0 <= i < t.len() implies leq(#[trigger] t[i], t0) by {
            if i > 0 {
                assert(descending::<T>()(t[0], t[i]));
            }
        }
        assert(r.contains(t0)) by {
            let a = r.choose();
            assert(r.contains(a));
            assert(m.contains(a));
            let i = choose|i: int| 0 <= i < t.len() && t[i] == a;
            assert(leq(a, t0));
            if !r.contains(t0) {
                assert(t.contains(t0));
                assert(m.sub(r).contains(t0));
                assert(leq(t0, a));
            }
        }
        let rest = t.drop_first();
        assert(rest =~= t.remove(0));
        let r1 = r.remove(t0);
        assert(rest.to_multiset() == m.remove(t0));
        assert(rest.to_multiset().sub(r1) =~= m.sub(r));
        assert(sorted_by(rest, descending::<T>())) by {
            assert forall|a: int, b: int| 0 <= a < b < rest.len() implies #[trigger] descending::<
                T,
            >()(rest[a], rest[b]) by {
                assert(descending::<T>()(t[a + 1], t[b + 1]));
            }
        }
        assert(is_top_k(r1, rest.to_multiset(), (k - 1) as nat)) by {
            assert forall|a: T, b: T| #[trigger] r1.contains(a) && #[trigger] rest.to_multiset().sub(
                r1,
            ).contains(b) implies leq(b, a) by {
                assert(r.contains(a));
                assert(m.sub(r).contains(b));
            }
        }
        lemma_top_k_of_sorted(rest, r1, (k - 1) as nat);
        let p = t.take(j as int);
        assert(p.remove(0) =~= rest.take(bounded((k - 1) as nat, rest.len()) as int));
        assert(p.remove(0).to_multiset() == p.to_multiset().remove(t0));
        assert(p.to_multiset().contains(t0)) by {
            assert(p[0] == t0);
        }
        let pm = p.to_multiset();
        assert(r1 == pm.remove(t0));
        assert(r =~= pm) by {
            assert forall|v: T| r.count(v) == pm.count(v) by {
                assert(r1.count(v) == pm.remove(t0).count(v));
                if v == t0 {
                    assert(r1.count(v) == r.count(v) - 1);
                    assert(pm.remove(t0).count(v) == pm.count(v) - 1);
                }
            }
        }
    }
}

/// Sorting a sequence that is already sorted from largest to smallest
/// leaves it as it is.
pub proof fn lemma_resort_is_identity<T: Ord>(out: Seq<T>)
    requires
        total_order::<T>(),
        sorted_by(out, descending::<T>()),
    ensures
        sort_desc(out) == out,
{
    lemma_orderings::<T>();
    lemma_sort_desc(out);
    vstd::seq_lib::lemma_sorted_unique(sort_desc(out), out, descending::<T>());
}

/// A sequence sorted from largest to smallest that holds the top `k` of `s`
/// is `s` sorted from largest to smallest and cut to its first `k` elements.
pub proof fn lemma_top_k_is_sorted_prefix<T: Ord>(s: Seq<T>, k: nat, out: Seq<T>)
    requires
        total_order::<T>(),
        is_top_k(out.to_multiset(), s.to_multiset(), k),
        sorted_by(out, descending::<T>()),
    ensures
        out == sort_desc(s).take(bounded(k, s.len()) as int),
{
    lemma_orderings::<T>();
    lemma_sort_desc(s);
    let t = sort_desc(s);
    lemma_top_k_of_sorted(t, out.to_multiset(), k);
    let p = t.take(bounded(k, s.len()) as int);
    assert(sorted_by(p, descending::<T>())) by {
        assert forall|a: int, b: int| 0 <= a < b < p.len() implies #[trigger] descending::<T>()(
            p[a],
            p[b],
        ) by {
            assert(descending::<T>()(t[a], t[b]));
        }
    }
    vstd::seq_lib::lemma_sorted_unique(out, p, descending::<T>());
}

/// The top `k` do not depend on the order in which the values arrive: two
/// arrangements of the same values have the same top `k`.
pub proof fn lemma_top_k_order_independent<T: Ord>(
    s1: Seq<T>,
    s2: Seq<T>,
    k: nat,
    r1: Multiset<T>,
    r2: Multiset<T>,
)
    requires
        total_order::<T>(),
        s1.to_multiset() == s2.to_multiset(),
        is_top_k(r1, s1.to_multiset(), k),
        is_top_k(r2, s2.to_multiset(), k),
    ensures
        r1 == r2,
{
    lemma_sort_desc(s1);
    let t = sort_desc(s1);
    lemma_top_k_of_sorted(t, r1, k);
    lemma_top_k_of_sorted(t, r2, k);
}

/// With room for nothing, nothing is kept.
pub proof fn lemma_zero_capacity_keeps_nothing<T: Ord>(r: Multiset<T>, s: Seq<T>)
    requires
        is_top_k(r, s.to_multiset(), 0),
    ensures
        r.len() == 0,
        r == Multiset::<T>::empty(),
{
    assert(r =~= Multiset::empty());
}

/// With room for every value, every value is kept, and the sorted result is
/// all of `s` from largest to smallest.
pub proof fn lemma_under_fill_keeps_all<T: Ord>(s: Seq<T>, k: nat, out: Seq<T>)
    requires
        total_order::<T>(),
        s.len() <= k,
        is_top_k(out.to_multiset(), s.to_multiset(), k),
        sorted_by(out, descending::<T>()),
    ensures
        out.to_multiset() == s.to_multiset(),
        out == sort_desc(s),
{
    lemma_top_k_is_sorted_prefix(s, k, out);
    lemma_sort_desc(s);
    assert(sort_desc(s).take(s.len() as int) =~= sort_desc(s));
}

} // verus!
