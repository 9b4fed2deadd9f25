//! Stability: a reordering is stable when, for every item `x`, the items
//! equivalent to `x` keep their relative order.
use vstd::prelude::*;
use core::cmp::Ordering;
use crate::order::{le, lt, is_total_preorder, lemma_order_facts, lemma_reflexive};
use crate::merge::sorted_seq;

verus! {

/// The items of `s` that `r` finds equivalent to `x`, in their order in `s`.
pub open spec fn class_in<T>(s: Seq<T>, x: T, r: spec_fn(T, T) -> Ordering) -> Seq<T> {
    s.filter(|y: T| r(y, x) == Ordering::Equal)
}

/// `a` is a stable reordering of `b`: every class of equivalent items appears
/// in both, in the same order.
pub open spec fn stable_perm<T>(a: Seq<T>, b: Seq<T>, r: spec_fn(T, T) -> Ordering) -> bool {
    forall|x: T| #[trigger] class_in(a, x, r) == class_in(b, x, r)
}

pub proof fn lemma_class_concat<T>(a: Seq<T>, b: Seq<T>, r: spec_fn(T, T) -> Ordering)
    ensures
        forall|x: T| #[trigger] class_in(a + b, x, r) == class_in(a, x, r) + class_in(b, x, r),
{
    assert forall|x: T| #[trigger] class_in(a + b, x, r) == class_in(a, x, r) + class_in(b, x, r) by {
        Seq::filter_distributes_over_add(a, b, |y: T| r(y, x) == Ordering::Equal);
    }
}

/// Two items equivalent to the same item are equivalent to each other.
pub proof fn lemma_equal_trans<T>(r: spec_fn(T, T) -> Ordering, a: T, b: T, x: T)
    requires
        is_total_preorder(r),
        r(a, x) == Ordering::Equal,
        r(b, x) == Ordering::Equal,
    ensures
        r(a, b) == Ordering::Equal,
{
    lemma_order_facts(r);
    assert(le(r, a, x));
    assert(le(r, x, b)) by {
        assert(r(b, x) == Ordering::Less <==> r(x, b) == Ordering::Greater);
    }
    assert(le(r, b, x));
    assert(le(r, x, a)) by {
        assert(r(a, x) == Ordering::Less <==> r(x, a) == Ordering::Greater);
    }
    assert(le(r, a, b));
    assert(le(r, b, a));
    assert(r(a, b) == Ordering::Less <==> r(b, a) == Ordering::Greater);
}

/// A nonempty class of `s` holds an item of `s`.
pub proof fn lemma_class_witness<T>(s: Seq<T>, x: T, r: spec_fn(T, T) -> Ordering)
    requires
        class_in(s, x, r).len() > 0,
    ensures
        exists|i: int| 0 <= i < s.len() && r(#[trigger] s[i], x) == Ordering::Equal,
{
    let p = |y: T| r(y, x) == Ordering::Equal;
    let f = s.filter(p);
    s.lemma_filter_pred(p, 0);
    assert(f.contains(f[0]));
    s.lemma_filter_contains_rev(p, f[0]);
}

/// Exchanging two adjacent blocks keeps every class when no item of one is
/// equivalent to an item of the other.
pub proof fn lemma_class_commute<T>(p: Seq<T>, q: Seq<T>, r: spec_fn(T, T) -> Ordering)
    requires
        is_total_preorder(r),
        forall|i: int, j: int| 0 <= i < p.len() && 0 <= j < q.len() ==> r(#[trigger] p[i], #[trigger] q[j]) != Ordering::Equal,
    ensures
        stable_perm(p + q, q + p, r),
{
    lemma_class_concat(p, q, r);
    lemma_class_concat(q, p, r);
    assert forall|x: T| #[trigger] class_in(p + q, x, r) == class_in(q + p, x, r) by {
        let cp = class_in(p, x, r);
        let cq = class_in(q, x, r);
        if cp.len() > 0 && cq.len() > 0 {
            lemma_class_witness(p, x, r);
            lemma_class_witness(q, x, r);
            let i = choose|i: int| 0 <= i < p.len() && r(#[trigger] p[i], x) == Ordering::Equal;
            let j = choose|j: int| 0 <= j < q.len() && r(#[trigger] q[j], x) == Ordering::Equal;
            lemma_equal_trans(r, p[i], q[j], x);
        } else if cp.len() == 0 {
            assert(cp + cq =~= cq + cp);
        } else {
            assert(cp + cq =~= cq + cp);
        }
    }
}

/// Exchanging the adjacent items at `j - 1` and `j`, which are not
/// equivalent, keeps the classes of any range that holds both.
pub proof fn lemma_swap_adjacent_stable<T>(s: Seq<T>, lo: int, hi: int, j: int, r: spec_fn(T, T) -> Ordering)
    requires
        is_total_preorder(r),
        0 <= lo < j < hi <= s.len(),
        r(s[j - 1], s[j]) != Ordering::Equal,
    ensures
        stable_perm(s.update(j - 1, s[j]).update(j, s[j - 1]).subrange(lo, hi), s.subrange(lo, hi), r),
{
    let t = s.update(j - 1, s[j]).update(j, s[j - 1]);
    let a = s.subrange(lo, j - 1);
    let b = s.subrange(j + 1, hi);
    let p = seq![s[j - 1]];
    let q = seq![s[j]];
    assert(s.subrange(lo, hi) =~= a + (p + q) + b);
    assert(t.subrange(lo, hi) =~= a + (q + p) + b);
    lemma_class_commute(p, q, r);
    lemma_class_concat(a, p + q, r);
    lemma_class_concat(a + (p + q), b, r);
    lemma_class_concat(a, q + p, r);
    lemma_class_concat(a + (q + p), b, r);
}

/// Replacing a range of `s` by a stable reordering of it gives a stable
/// reordering of `s`.
pub proof fn lemma_stable_splice<T>(s: Seq<T>, t: Seq<T>, lo: int, hi: int, r: spec_fn(T, T) -> Ordering)
    requires
        0 <= lo <= hi <= s.len(),
        s.len() == t.len(),
        forall|k: int| 0 <= k < s.len() && !(lo <= k < hi) ==> s[k] == t[k],
        stable_perm(s.subrange(lo, hi), t.subrange(lo, hi), r),
    ensures
        stable_perm(s, t, r),
{
    assert(s =~= s.subrange(0, lo) + s.subrange(lo, hi) + s.skip(hi));
    assert(t =~= s.subrange(0, lo) + t.subrange(lo, hi) + s.skip(hi));
    lemma_class_concat(s.subrange(0, lo), s.subrange(lo, hi), r);
    lemma_class_concat(s.subrange(0, lo) + s.subrange(lo, hi), s.skip(hi), r);
    lemma_class_concat(s.subrange(0, lo), t.subrange(lo, hi), r);
    lemma_class_concat(s.subrange(0, lo) + t.subrange(lo, hi), s.skip(hi), r);
}

pub proof fn lemma_stable_trans<T>(a: Seq<T>, b: Seq<T>, c: Seq<T>, r: spec_fn(T, T) -> Ordering)
    requires
        stable_perm(a, b, r),
        stable_perm(b, c, r),
    ensures
        stable_perm(a, c, r),
{
    assert forall|x: T| #[trigger] class_in(a, x, r) == class_in(c, x, r) by {
        assert(class_in(a, x, r) == class_in(b, x, r));
        assert(class_in(b, x, r) == class_in(c, x, r));
    }
}

/// The class of `x` in `s.push(e)`: that of `x` in `s`, followed by `e`
/// when `e` is equivalent to `x`.
pub proof fn lemma_class_push<T>(s: Seq<T>, e: T, x: T, r: spec_fn(T, T) -> Ordering)
    ensures
        class_in(s.push(e), x, r) == if r(e, x) == Ordering::Equal {
            class_in(s, x, r).push(e)
        } else {
            class_in(s, x, r)
        },
{
    s.lemma_filter_push(e, |y: T| r(y, x) == Ordering::Equal);
}

/// A stable sort has one possible result: two sequences that are both
/// sorted, and hold every class of equivalent items in the same order, are
/// equal. So a stable sort leaves a sorted sequence as it is, and any two
/// stable sorts of the same sequence agree.
pub proof fn lemma_stable_sort_unique<T>(a: Seq<T>, b: Seq<T>, r: spec_fn(T, T) -> Ordering)
    requires
        is_total_preorder(r),
        sorted_seq(a, r),
        sorted_seq(b, r),
        stable_perm(a, b, r),
    ensures
        a == b,
    decreases a.len() + b.len(),
{
    lemma_order_facts(r);
    if a.len() == 0 && b.len() == 0 {
        assert(a =~= b);
        return;
    }
    if a.len() == 0 || b.len() == 0 {
        // The last item of the nonempty one has a nonempty class there, and
        // an empty one in the other.
        let s = if a.len() == 0 { b } else { a };
        let e = s.last();
        lemma_class_push(s.drop_last(), e, e, r);
        assert(s.drop_last().push(e) =~= s);
        assert(class_in(s, e, r).len() > 0);
        assert(a.len() == 0 ==> a =~= Seq::<T>::empty());
        assert(b.len() == 0 ==> b =~= Seq::<T>::empty());
        assert(Seq::<T>::empty().filter(|y: T| r(y, e) == Ordering::Equal) =~= Seq::<T>::empty()) by {
            reveal(Seq::filter);
        }
        assert(class_in(a, e, r) == class_in(b, e, r));
        assert(false);
        return;
    }
    let a1 = a.drop_last();
    let b1 = b.drop_last();
    let x = a.last();
    let y = b.last();
    assert(a1.push(x) =~= a);
    assert(b1.push(y) =~= b);
    // The last items are equivalent: each is a greatest item of both.
    lemma_class_push(b1, y, y, r);
    assert(class_in(a, y, r).len() > 0);
    lemma_class_witness(a, y, r);
    let i = choose|i: int| 0 <= i < a.len() && r(#[trigger] a[i], y) == Ordering::Equal;
    assert(le(r, a[i], x));
    assert(le(r, y, x)) by {
        assert(r(a[i], y) == Ordering::Less <==> r(y, a[i]) == Ordering::Greater);
        assert(le(r, y, a[i]));
    }
    lemma_class_push(a1, x, x, r);
    assert(class_in(b, x, r).len() > 0);
    lemma_class_witness(b, x, r);
    let j = choose|j: int| 0 <= j < b.len() && r(#[trigger] b[j], x) == Ordering::Equal;
    assert(le(r, b[j], y));
    assert(le(r, x, y)) by {
        assert(r(b[j], x) == Ordering::Less <==> r(x, b[j]) == Ordering::Greater);
        assert(le(r, x, b[j]));
    }
    assert(r(x, y) == Ordering::Less <==> r(y, x) == Ordering::Greater);
    assert(r(y, x) == Ordering::Less <==> r(x, y) == Ordering::Greater);
    assert(r(y, x) == Ordering::Equal);
    // The class of `x` ends with `x` in `a` and with `y` in `b`.
    lemma_class_push(b1, y, x, r);
    assert(class_in(a, x, r) == class_in(b, x, r));
    assert(class_in(a, x, r).last() == x);
    assert(class_in(b, x, r).last() == y);
    assert(x == y);
    // Without their last items, the two are still stable reorderings of
    // each other.
    assert forall|z: T| #[trigger] class_in(a1, z, r) == class_in(b1, z, r) by {
        lemma_class_push(a1, x, z, r);
        lemma_class_push(b1, y, z, r);
        assert(class_in(a, z, r) == class_in(b, z, r));
        if r(x, z) == Ordering::Equal {
            assert(class_in(a1, z, r) =~= class_in(a, z, r).drop_last());
            assert(class_in(b1, z, r) =~= class_in(b, z, r).drop_last());
        }
    }
    assert forall|p: int, q: int| 0 <= p <= q < a1.len() implies le(r, #[trigger] a1[p], #[trigger] a1[q]) by {
        assert(a1[p] == a[p] && a1[q] == a[q]);
    }
    assert forall|p: int, q: int| 0 <= p <= q < b1.len() implies le(r, #[trigger] b1[p], #[trigger] b1[q]) by {
        assert(b1[p] == b[p] && b1[q] == b[q]);
    }
    lemma_stable_sort_unique(a1, b1, r);
}


/// An item occurs in `s` as often as in its own class of `s`.
proof fn lemma_count_class<T>(s: Seq<T>, x: T, r: spec_fn(T, T) -> Ordering)
    requires
        r(x, x) == Ordering::Equal,
    ensures
        s.to_multiset().count(x) == class_in(s, x, r).to_multiset().count(x),
    decreases s.len(),
{
    broadcast use vstd::seq_lib::group_to_multiset_ensures;
    broadcast use vstd::multiset::group_multiset_axioms;
    if s.len() == 0 {
        broadcast use vstd::seq_lib::group_filter_ensures;
        assert(class_in(s, x, r).len() == 0);
        assert(class_in(s, x, r) =~= Seq::<T>::empty());
        assert(s =~= Seq::<T>::empty());
    } else {
        let t = s.drop_last();
        let e = s.last();
        lemma_count_class(t, x, r);
        assert(s =~= t.push(e));
        lemma_class_push(t, e, x, r);
    }
}

/// A stable reordering holds the same items.
pub proof fn lemma_stable_perm_multiset<T>(a: Seq<T>, b: Seq<T>, r: spec_fn(T, T) -> Ordering)
    requires
        is_total_preorder(r),
        stable_perm(a, b, r),
    ensures
        a.to_multiset() == b.to_multiset(),
{
    assert forall|x: T| a.to_multiset().count(x) == b.to_multiset().count(x) by {
        lemma_reflexive(r, x);
        lemma_count_class(a, x, r);
        lemma_count_class(b, x, r);
        assert(class_in(a, x, r) == class_in(b, x, r));
    }
    assert(a.to_multiset() =~= b.to_multiset());
}

} // verus!
