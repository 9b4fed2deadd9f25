//! Sorting networks whose comparators break ties between equivalent items
//! by their original positions, and why they sort stably: an item paired
//! with its original position has a rank among the pairs, and each
//! comparator orders two ranks.
use vstd::prelude::*;
use core::cmp::Ordering;
use crate::order::{le, lt, is_total_preorder, lemma_order_facts};
use crate::ops::{int_of, len_of, nat_from};
use crate::stability::{class_in, stable_perm, lemma_class_concat, lemma_class_push};

verus! {

/// Item `a` at original position `i` comes before item `b` at original
/// position `j`: it is less, or equivalent and earlier.
pub open spec fn before<T>(r: spec_fn(T, T) -> Ordering, a: T, i: int, b: T, j: int) -> bool {
    lt(r, a, b) || (!lt(r, a, b) && !lt(r, b, a) && i < j)
}

/// The positions of the items of `s` that come before the item at `i`.
pub open spec fn earlier<T>(s: Seq<T>, i: int, r: spec_fn(T, T) -> Ordering) -> Set<int> {
    Set::new(|j: int| 0 <= j < s.len() && before(r, s[j], j, s[i], i))
}

/// The rank of the item at `i` in `s`, taken with its position: how many
/// items come before it.
pub open spec fn rank<T>(s: Seq<T>, i: int, r: spec_fn(T, T) -> Ordering) -> int {
    int_of(earlier(s, i, r).len())
}

/// Coming before is a strict total order on the items of a sequence taken
/// with their positions.
proof fn lemma_before_order<T>(r: spec_fn(T, T) -> Ordering, a: T, i: int, b: T, j: int, c: T, k: int)
    requires
        is_total_preorder(r),
    ensures
        !before(r, a, i, a, i),
        before(r, a, i, b, j) && before(r, b, j, c, k) ==> before(r, a, i, c, k),
        i != j ==> before(r, a, i, b, j) || before(r, b, j, a, i),
        before(r, a, i, b, j) ==> !before(r, b, j, a, i),
{
    lemma_order_facts(r);
    if before(r, a, i, b, j) && before(r, b, j, c, k) {
        if lt(r, a, b) && lt(r, b, c) {
            assert(le(r, b, c));
        } else if lt(r, a, b) {
            assert(le(r, b, c));
        } else if lt(r, b, c) {
            assert(le(r, a, b));
        } else {
            assert(le(r, a, b) && le(r, b, c) && le(r, c, b) && le(r, b, a));
            assert(le(r, a, c) && le(r, c, a));
        }
    }
}

/// Ranks order the items as coming before does, and differ for different
/// positions.
pub proof fn lemma_rank_order<T>(s: Seq<T>, i: int, j: int, r: spec_fn(T, T) -> Ordering)
    requires
        is_total_preorder(r),
        0 <= i < s.len(),
        0 <= j < s.len(),
    ensures
        before(r, s[i], i, s[j], j) <==> rank(s, i, r) < rank(s, j, r),
        i != j ==> rank(s, i, r) != rank(s, j, r),
        0 <= rank(s, i, r) < s.len(),
{
    let n = len_of(s);
    let all = vstd::set_lib::set_int_range(0, n);
    vstd::set_lib::lemma_int_range(0, n);
    lemma_before_order(r, s[i], i, s[i], i, s[i], i);
    assert(earlier(s, i, r).subset_of(all.remove(i)));
    vstd::set_lib::lemma_len_subset(earlier(s, i, r), all.remove(i));
    assert(earlier(s, j, r).subset_of(all));
    vstd::set_lib::lemma_len_subset(earlier(s, j, r), all);
    if before(r, s[i], i, s[j], j) {
        assert forall|k: int| #[trigger] earlier(s, i, r).contains(k) implies earlier(s, j, r).remove(i).contains(k) by {
            lemma_before_order(r, s[k], k, s[i], i, s[j], j);
            lemma_before_order(r, s[k], k, s[k], k, s[k], k);
        }
        assert(earlier(s, j, r).contains(i));
        vstd::set_lib::lemma_len_subset(earlier(s, i, r), earlier(s, j, r).remove(i));
    }
    if before(r, s[j], j, s[i], i) {
        assert forall|k: int| #[trigger] earlier(s, j, r).contains(k) implies earlier(s, i, r).remove(j).contains(k) by {
            lemma_before_order(r, s[k], k, s[j], j, s[i], i);
            lemma_before_order(r, s[k], k, s[k], k, s[k], k);
        }
        assert(earlier(s, i, r).contains(j));
        vstd::set_lib::lemma_len_subset(earlier(s, j, r), earlier(s, i, r).remove(j));
    }
    lemma_before_order(r, s[i], i, s[j], j, s[i], i);
    if i == j {
        lemma_before_order(r, s[i], i, s[i], i, s[i], i);
    }
}

/// A reordering `t` of `s` that takes the item at position `p` from
/// position `o[p]` of `s`, and keeps equivalent items in the order of their
/// positions in `s`, is stable.
pub proof fn lemma_tags_stable<T>(t: Seq<T>, s: Seq<T>, o: Seq<int>, r: spec_fn(T, T) -> Ordering)
    requires
        is_total_preorder(r),
        t.len() == s.len(),
        o.len() == s.len(),
        forall|p: int| 0 <= p < o.len() ==> 0 <= #[trigger] o[p] < s.len(),
        forall|p: int, q: int| 0 <= p < q < o.len() ==> #[trigger] o[p] != #[trigger] o[q],
        forall|p: int| 0 <= p < t.len() ==> #[trigger] t[p] == s[o[p]],
        forall|p: int, q: int| 0 <= p < q < t.len() && !lt(r, #[trigger] t[p], #[trigger] t[q]) && !lt(r, t[q], t[p])
            ==> o[p] < o[q],
    ensures
        stable_perm(t, s, r),
    decreases s.len(),
{
    if s.len() == 0 {
        assert(t =~= s);
        return;
    }
    let n = len_of(s);
    // The item that was last in `s` now stands at `m`.
    let all = vstd::set_lib::set_int_range(0, n);
    vstd::set_lib::lemma_int_range(0, n);
    let img = Set::new(|v: int| exists|p: int| 0 <= p < n && #[trigger] o[p] == v);
    assert(img.subset_of(all));
    assert(exists|p: int| 0 <= p < n && o[p] == n - 1) by {
        if !(exists|p: int| 0 <= p < n && o[p] == n - 1) {
            assert(img.subset_of(all.remove(n - 1)));
            vstd::set_lib::lemma_len_subset(img, all.remove(n - 1));
            // The positions map one to one into fewer than `n` values.
            lemma_injective_image(o, n);
            assert(false);
        }
    }
    let m = choose|p: int| 0 <= p < n && o[p] == n - 1;
    let t1 = t.remove(m);
    let o1 = o.remove(m);
    let s1 = s.drop_last();
    t.remove_ensures(m);
    o.remove_ensures(m);
    assert forall|p: int| 0 <= p < o1.len() implies 0 <= #[trigger] o1[p] < s1.len() by {
        let q = if p < m { p } else { p + 1 };
        assert(o1[p] == o[q]);
        assert(o[q] != o[m]);
    }
    assert forall|p: int, q: int| 0 <= p < q < o1.len() implies #[trigger] o1[p] != #[trigger] o1[q] by {
        let p0 = if p < m { p } else { p + 1 };
        let q0 = if q < m { q } else { q + 1 };
        assert(o1[p] == o[p0] && o1[q] == o[q0]);
    }
    assert forall|p: int| 0 <= p < t1.len() implies #[trigger] t1[p] == s1[o1[p]] by {
        let p0 = if p < m { p } else { p + 1 };
        assert(t1[p] == t[p0] && o1[p] == o[p0]);
        assert(o[p0] != o[m]);
    }
    assert forall|p: int, q: int| 0 <= p < q < t1.len() && !lt(r, #[trigger] t1[p], #[trigger] t1[q]) && !lt(r, t1[q], t1[p])
        implies o1[p] < o1[q] by {
        let p0 = if p < m { p } else { p + 1 };
        let q0 = if q < m { q } else { q + 1 };
        assert(t1[p] == t[p0] && o1[p] == o[p0]);
        assert(t1[q] == t[q0] && o1[q] == o[q0]);
    }
    lemma_tags_stable(t1, s1, o1, r);
    // No item after `m` in `t` is equivalent to the one at `m`.
    let e = t[m];
    assert(e == s[n - 1]);
    assert(s1.push(e) =~= s);
    let pre = t.subrange(0, m);
    let post = t.subrange(m + 1, n);
    assert(t =~= pre + seq![e] + post);
    assert(t1 =~= pre + post);
    assert forall|x: T| #[trigger] class_in(t, x, r) == class_in(s, x, r) by {
        lemma_class_push(s1, e, x, r);
        lemma_class_concat(pre + seq![e], post, r);
        lemma_class_concat(pre, seq![e], r);
        lemma_class_concat(pre, post, r);
        lemma_class_push(Seq::<T>::empty(), e, x, r);
        assert(Seq::<T>::empty().push(e) =~= seq![e]);
        assert(Seq::<T>::empty().filter(|y: T| r(y, x) == Ordering::Equal) =~= Seq::<T>::empty()) by {
            reveal(Seq::filter);
        }
        assert(class_in(t1, x, r) == class_in(s1, x, r));
        if r(e, x) == Ordering::Equal {
            assert forall|i: int| 0 <= i < post.len() implies r(#[trigger] post[i], x) != Ordering::Equal by {
                let q = m + 1 + i;
                assert(post[i] == t[q]);
                if r(t[q], x) == Ordering::Equal {
                    lemma_order_facts(r);
                    crate::stability::lemma_equal_trans(r, e, t[q], x);
                    assert(r(e, t[q]) == Ordering::Less <==> r(t[q], e) == Ordering::Greater);
                    assert(!lt(r, t[m], t[q]) && !lt(r, t[q], t[m]));
                    assert(o[m] < o[q]);
                }
            }
            if class_in(post, x, r).len() > 0 {
                crate::stability::lemma_class_witness(post, x, r);
            }
            assert(class_in(post, x, r) =~= Seq::<T>::empty());
        }
    }
}

/// One to one on `0..n`, `o` takes `n` distinct values.
proof fn lemma_injective_image(o: Seq<int>, n: int)
    requires
        o.len() == n,
        n >= 0,
        forall|p: int, q: int| 0 <= p < q < o.len() ==> #[trigger] o[p] != #[trigger] o[q],
    ensures
        Set::new(|v: int| exists|p: int| 0 <= p < n && #[trigger] o[p] == v).finite(),
        Set::new(|v: int| exists|p: int| 0 <= p < n && #[trigger] o[p] == v).len() == n,
    decreases n,
{
    let img = Set::new(|v: int| exists|p: int| 0 <= p < n && #[trigger] o[p] == v);
    if n == 0 {
        assert(img =~= Set::<int>::empty());
    } else {
        let o1 = o.drop_last();
        lemma_injective_image(o1, n - 1);
        let img1 = Set::new(|v: int| exists|p: int| 0 <= p < n - 1 && #[trigger] o1[p] == v);
        assert forall|v: int| #[trigger] img.contains(v) <==> img1.insert(o[n - 1]).contains(v) by {
            if img.contains(v) {
                let p = choose|p: int| 0 <= p < n && #[trigger] o[p] == v;
                if p < n - 1 {
                    assert(o1[p] == v);
                }
            }
            if img1.contains(v) {
                let p = choose|p: int| 0 <= p < n - 1 && #[trigger] o1[p] == v;
                assert(o[p] == v);
            }
        }
        assert(img =~= img1.insert(o[n - 1]));
        assert(!img1.contains(o[n - 1])) by {
            if img1.contains(o[n - 1]) {
                let p = choose|p: int| 0 <= p < n - 1 && #[trigger] o1[p] == o[n - 1];
                assert(o[p] == o1[p]);
            }
        }
    }
}

/// The smaller of two ranks, which a comparator puts first.
pub open spec fn ce_lo(a: int, b: int) -> int {
    if b < a { b } else { a }
}

/// The greater of two ranks, which a comparator puts second.
pub open spec fn ce_hi(a: int, b: int) -> int {
    if b < a { a } else { b }
}

/// The ranks after the comparators of the network on 4 items.
pub open spec fn network_4(k0: int, k1: int, k2: int, k3: int) -> (int, int, int, int) {
    let l0 = ce_lo(k0, k1);
    let h0 = ce_hi(k0, k1);
    let l1 = ce_lo(k2, k3);
    let h1 = ce_hi(k2, k3);
    let l2 = ce_lo(l0, l1);
    let h2 = ce_hi(l0, l1);
    let l3 = ce_lo(h0, h1);
    let h3 = ce_hi(h0, h1);
    let l4 = ce_lo(l3, h2);
    let h4 = ce_hi(l3, h2);
    (l2, l4, h4, h3)
}

/// The network on 4 items sorts any 4 integers.
pub proof fn lemma_network_4(k0: int, k1: int, k2: int, k3: int)
    ensures
        ({
            let res = network_4(k0, k1, k2, k3);
            res.0 <= res.1 && res.1 <= res.2 && res.2 <= res.3
        }),
{
}

/// The ranks after the comparators of the network on 5 items.
pub open spec fn network_5(k0: int, k1: int, k2: int, k3: int, k4: int) -> (int, int, int, int, int) {
    let l0 = ce_lo(k0, k1);
    let h0 = ce_hi(k0, k1);
    let l1 = ce_lo(k3, k4);
    let h1 = ce_hi(k3, k4);
    let l2 = ce_lo(k2, h1);
    let h2 = ce_hi(k2, h1);
    let l3 = ce_lo(l2, l1);
    let h3 = ce_hi(l2, l1);
    let l4 = ce_lo(h0, h2);
    let h4 = ce_hi(h0, h2);
    let l5 = ce_lo(l0, h3);
    let h5 = ce_hi(l0, h3);
    let l6 = ce_lo(l5, l3);
    let h6 = ce_hi(l5, l3);
    let l7 = ce_lo(l4, h5);
    let h7 = ce_hi(l4, h5);
    let l8 = ce_lo(l7, h6);
    let h8 = ce_hi(l7, h6);
    (l6, l8, h8, h7, h4)
}

/// The network on 5 items sorts any 5 integers.
pub proof fn lemma_network_5(k0: int, k1: int, k2: int, k3: int, k4: int)
    ensures
        ({
            let res = network_5(k0, k1, k2, k3, k4);
            res.0 <= res.1 && res.1 <= res.2 && res.2 <= res.3 && res.3 <= res.4
        }),
{
}

/// The ranks after the comparators of the network on 6 items.
pub open spec fn network_6(k0: int, k1: int, k2: int, k3: int, k4: int, k5: int) -> (int, int, int, int, int, int) {
    let l0 = ce_lo(k1, k2);
    let h0 = ce_hi(k1, k2);
    let l1 = ce_lo(k4, k5);
    let h1 = ce_hi(k4, k5);
    let l2 = ce_lo(k0, h0);
    let h2 = ce_hi(k0, h0);
    let l3 = ce_lo(k3, h1);
    let h3 = ce_hi(k3, h1);
    let l4 = ce_lo(l2, l0);
    let h4 = ce_hi(l2, l0);
    let l5 = ce_lo(l3, l1);
    let h5 = ce_hi(l3, l1);
    let l6 = ce_lo(h2, h3);
    let h6 = ce_hi(h2, h3);
    let l7 = ce_lo(l4, l5);
    let h7 = ce_hi(l4, l5);
    let l8 = ce_lo(h4, h5);
    let h8 = ce_hi(h4, h5);
    let l9 = ce_lo(l6, h8);
    let h9 = ce_hi(l6, h8);
    let l10 = ce_lo(l8, h7);
    let h10 = ce_hi(l8, h7);
    let l11 = ce_lo(l9, h10);
    let h11 = ce_hi(l9, h10);
    (l7, l10, l11, h11, h9, h6)
}

/// The network on 6 items sorts any 6 integers.
pub proof fn lemma_network_6(k0: int, k1: int, k2: int, k3: int, k4: int, k5: int)
    ensures
        ({
            let res = network_6(k0, k1, k2, k3, k4, k5);
            res.0 <= res.1 && res.1 <= res.2 && res.2 <= res.3 && res.3 <= res.4 && res.4 <= res.5
        }),
{
}

/// The ranks after the comparators of the network on 7 items.
pub open spec fn network_7(k0: int, k1: int, k2: int, k3: int, k4: int, k5: int, k6: int) -> (int, int, int, int, int, int, int) {
    let l0 = ce_lo(k1, k2);
    let h0 = ce_hi(k1, k2);
    let l1 = ce_lo(k3, k4);
    let h1 = ce_hi(k3, k4);
    let l2 = ce_lo(k5, k6);
    let h2 = ce_hi(k5, k6);
    let l3 = ce_lo(k0, h0);
    let h3 = ce_hi(k0, h0);
    let l4 = ce_lo(l1, l2);
    let h4 = ce_hi(l1, l2);
    let l5 = ce_lo(h1, h2);
    let h5 = ce_hi(h1, h2);
    let l6 = ce_lo(l3, l0);
    let h6 = ce_hi(l3, l0);
    let l7 = ce_lo(l5, h4);
    let h7 = ce_hi(l5, h4);
    let l8 = ce_lo(h3, h5);
    let h8 = ce_hi(h3, h5);
    let l9 = ce_lo(l6, l7);
    let h9 = ce_hi(l6, l7);
    let l10 = ce_lo(h6, h7);
    let h10 = ce_hi(h6, h7);
    let l11 = ce_lo(l9, l4);
    let h11 = ce_hi(l9, l4);
    let l12 = ce_lo(l8, h10);
    let h12 = ce_hi(l8, h10);
    let l13 = ce_lo(l10, h11);
    let h13 = ce_hi(l10, h11);
    let l14 = ce_lo(l12, h9);
    let h14 = ce_hi(l12, h9);
    let l15 = ce_lo(l14, h13);
    let h15 = ce_hi(l14, h13);
    (l11, l13, l15, h15, h14, h12, h8)
}

/// The network on 7 items sorts any 7 integers.
pub proof fn lemma_network_7(k0: int, k1: int, k2: int, k3: int, k4: int, k5: int, k6: int)
    ensures
        ({
            let res = network_7(k0, k1, k2, k3, k4, k5, k6);
            res.0 <= res.1 && res.1 <= res.2 && res.2 <= res.3 && res.3 <= res.4 && res.4 <= res.5 && res.5 <= res.6
        }),
{
}

/// The ranks after the comparators of the network on 8 items.
pub open spec fn network_8(k0: int, k1: int, k2: int, k3: int, k4: int, k5: int, k6: int, k7: int) -> (int, int, int, int, int, int, int, int) {
    let l0 = ce_lo(k0, k1);
    let h0 = ce_hi(k0, k1);
    let l1 = ce_lo(k2, k3);
    let h1 = ce_hi(k2, k3);
    let l2 = ce_lo(k4, k5);
    let h2 = ce_hi(k4, k5);
    let l3 = ce_lo(k6, k7);
    let h3 = ce_hi(k6, k7);
    let l4 = ce_lo(l0, l1);
    let h4 = ce_hi(l0, l1);
    let l5 = ce_lo(h0, h1);
    let h5 = ce_hi(h0, h1);
    let l6 = ce_lo(l2, l3);
    let h6 = ce_hi(l2, l3);
    let l7 = ce_lo(h2, h3);
    let h7 = ce_hi(h2, h3);
    let l8 = ce_lo(l5, h4);
    let h8 = ce_hi(l5, h4);
    let l9 = ce_lo(l7, h6);
    let h9 = ce_hi(l7, h6);
    let l10 = ce_lo(l4, l6);
    let h10 = ce_hi(l4, l6);
    let l11 = ce_lo(h5, h7);
    let h11 = ce_hi(h5, h7);
    let l12 = ce_lo(l8, l9);
    let h12 = ce_hi(l8, l9);
    let l13 = ce_lo(h8, h9);
    let h13 = ce_hi(h8, h9);
    let l14 = ce_lo(l12, h10);
    let h14 = ce_hi(l12, h10);
    let l15 = ce_lo(l11, h13);
    let h15 = ce_hi(l11, h13);
    let l16 = ce_lo(l13, h14);
    let h16 = ce_hi(l13, h14);
    let l17 = ce_lo(l15, h12);
    let h17 = ce_hi(l15, h12);
    let l18 = ce_lo(l17, h16);
    let h18 = ce_hi(l17, h16);
    (l10, l14, l16, l18, h18, h17, h15, h11)
}

/// The network on 8 items sorts any 8 integers.
pub proof fn lemma_network_8(k0: int, k1: int, k2: int, k3: int, k4: int, k5: int, k6: int, k7: int)
    ensures
        ({
            let res = network_8(k0, k1, k2, k3, k4, k5, k6, k7);
            res.0 <= res.1 && res.1 <= res.2 && res.2 <= res.3 && res.3 <= res.4 && res.4 <= res.5 && res.5 <= res.6 && res.6 <= res.7
        }),
{
}

/// The items of the `n` positions from `start` of `s` are those of `s0`,
/// the item at position `p` coming from position `o[p]` of `s0`; no two
/// positions come from the same one.
pub open spec fn tagged<T>(s: Seq<T>, o: Seq<u8>, s0: Seq<T>, start: int, n: int) -> bool {
    &&& o.len() == 8
    &&& s0.len() == n
    &&& 0 <= start
    &&& start + n <= s.len()
    &&& forall|p: int| 0 <= p < n ==> #[trigger] tag(o, p) < n && s[start + p] == s0[tag(o, p)]
    &&& forall|p: int, q: int| 0 <= p < q < n ==> #[trigger] o[p] != #[trigger] o[q]
}

/// The comparator at positions `x` and `y` exchanges their items: the
/// second is less, or they are equivalent and came in the other order.
pub open spec fn exchanges<T>(r: spec_fn(T, T) -> Ordering, s: Seq<T>, o: Seq<u8>, start: int, x: int, y: int) -> bool {
    lt(r, s[start + y], s[start + x]) || (o[x] > o[y] && !lt(r, s[start + x], s[start + y]))
}

/// The rank, in `s0`, of the item at position `p` of a tagged range.
pub open spec fn rank_at<T>(s0: Seq<T>, o: Seq<u8>, p: int, r: spec_fn(T, T) -> Ordering) -> int {
    rank(s0, tag(o, p), r)
}

/// The position in `s0` that the item at position `p` came from.
pub open spec fn tag(o: Seq<u8>, p: int) -> int {
    o[p] as int
}

/// One comparator of a network on a tagged range: the range stays tagged,
/// and the ranks at the two positions come out as the smaller and the
/// greater of the two.
pub proof fn lemma_net_step<T>(sb: Seq<T>, sa: Seq<T>, ob: Seq<u8>, oa: Seq<u8>, s0: Seq<T>, start: int, x: int, y: int, n: int, r: spec_fn(T, T) -> Ordering)
    requires
        is_total_preorder(r),
        0 <= x < y < n <= 8,
        tagged(sb, ob, s0, start, n),
        sa == if exchanges(r, sb, ob, start, x, y) { crate::ops::swapped(sb, start + x, start + y) } else { sb },
        oa == if exchanges(r, sb, ob, start, x, y) { crate::ops::swapped(ob, x, y) } else { ob },
    ensures
        tagged(sa, oa, s0, start, n),
        rank_at(s0, oa, x, r) == ce_lo(rank_at(s0, ob, x, r), rank_at(s0, ob, y, r)),
        rank_at(s0, oa, y, r) == ce_hi(rank_at(s0, ob, x, r), rank_at(s0, ob, y, r)),
        forall|p: int| 0 <= p < 8 && p != x && p != y ==> #[trigger] oa[p] == ob[p],
        sa.len() == sb.len(),
        forall|k: int| 0 <= k < sb.len() && !(start <= k < start + n) ==> #[trigger] sa[k] == sb[k],
{
    let tx = tag(ob, x);
    let ty = tag(ob, y);
    assert(tag(ob, x) < n && tag(ob, y) < n);
    assert(sb[start + x] == s0[tx] && sb[start + y] == s0[ty]);
    lemma_rank_order(s0, ty, tx, r);
    lemma_rank_order(s0, tx, ty, r);
    lemma_order_facts(r);
    assert(exchanges(r, sb, ob, start, x, y) <==> before(r, s0[ty], ty, s0[tx], tx));
    assert forall|p: int| 0 <= p < n implies #[trigger] tag(oa, p) < n && sa[start + p] == s0[tag(oa, p)] by {
        if exchanges(r, sb, ob, start, x, y) {
            if p == x {
                assert(oa[p] == ob[y]);
                assert(tag(ob, y) < n);
            } else if p == y {
                assert(oa[p] == ob[x]);
                assert(tag(ob, x) < n);
            } else {
                assert(oa[p] == ob[p]);
                assert(tag(ob, p) < n);
            }
        } else {
            assert(tag(ob, p) < n);
        }
    }
    assert forall|p: int, q: int| 0 <= p < q < n implies #[trigger] oa[p] != #[trigger] oa[q] by {
        if exchanges(r, sb, ob, start, x, y) {
            let p0 = if p == x { y } else if p == y { x } else { p };
            let q0 = if q == x { y } else if q == y { x } else { q };
            assert(oa[p] == ob[p0] && oa[q] == ob[q0]);
            if p0 < q0 {
                assert(ob[p0] != ob[q0]);
            } else {
                assert(ob[q0] != ob[p0]);
            }
        }
    }
}

/// Integers that increase from each position to the next increase
/// throughout.
proof fn lemma_adjacent_increasing(ks: Seq<int>)
    requires
        forall|p: int| 0 <= p < ks.len() - 1 ==> #[trigger] ks[p] < ks[p + 1],
    ensures
        forall|p: int, q: int| 0 <= p < q < ks.len() ==> #[trigger] ks[p] < #[trigger] ks[q],
    decreases ks.len(),
{
    if ks.len() > 0 {
        let k1 = ks.drop_last();
        assert forall|p: int| 0 <= p < k1.len() - 1 implies #[trigger] k1[p] < k1[p + 1] by {
            assert(k1[p] == ks[p] && k1[p + 1] == ks[p + 1]);
        }
        lemma_adjacent_increasing(k1);
        assert forall|p: int, q: int| 0 <= p < q < ks.len() implies #[trigger] ks[p] < #[trigger] ks[q] by {
            if q < ks.len() - 1 {
                assert(k1[p] == ks[p] && k1[q] == ks[q]);
            } else if p < q - 1 {
                assert(k1[p] == ks[p] && k1[q - 1] == ks[q - 1]);
                assert(ks[q - 1] < ks[q]);
            }
        }
    }
}

/// A tagged range whose ranks increase from each position to the next is
/// sorted, and a stable reordering of the items it came from.
pub proof fn lemma_network_result<T>(s: Seq<T>, o: Seq<u8>, s0: Seq<T>, start: int, n: int, r: spec_fn(T, T) -> Ordering)
    requires
        is_total_preorder(r),
        tagged(s, o, s0, start, n),
        forall|p: int| 0 <= p < n - 1 ==> #[trigger] rank_at(s0, o, p, r) < rank_at(s0, o, p + 1, r),
    ensures
        crate::search::sorted_between(s, start, start + n, r),
        stable_perm(s.subrange(start, start + n), s0, r),
{
    lemma_order_facts(r);
    let ks = Seq::new(nat_from(n), |p: int| rank_at(s0, o, p, r));
    assert forall|p: int| 0 <= p < ks.len() - 1 implies #[trigger] ks[p] < ks[p + 1] by {
        assert(ks[p] == rank_at(s0, o, p, r) && ks[p + 1] == rank_at(s0, o, p + 1, r));
    }
    lemma_adjacent_increasing(ks);
    // Positions in increasing order hold items coming before one another.
    assert forall|p: int, q: int| 0 <= p < q < n implies before(r, s0[tag(o, p)], tag(o, p), s0[tag(o, q)], tag(o, q)) by {
        assert(ks[p] < ks[q]);
        assert(tag(o, p) < n && tag(o, q) < n);
        lemma_rank_order(s0, tag(o, p), tag(o, q), r);
    }
    assert forall|i: int, j: int| start <= i <= j < start + n implies le(r, #[trigger] s[i], #[trigger] s[j]) by {
        let p = i - start;
        let q = j - start;
        assert(tag(o, p) < n && tag(o, q) < n);
        assert(s[start + p] == s0[tag(o, p)] && s[start + q] == s0[tag(o, q)]);
        if p < q {
            assert(before(r, s0[tag(o, p)], tag(o, p), s0[tag(o, q)], tag(o, q)));
        }
    }
    let t = s.subrange(start, start + n);
    let ot = Seq::new(nat_from(n), |p: int| tag(o, p));
    assert forall|p: int| 0 <= p < ot.len() implies 0 <= #[trigger] ot[p] < s0.len() by {
        assert(tag(o, p) < n);
    }
    assert forall|p: int, q: int| 0 <= p < q < ot.len() implies #[trigger] ot[p] != #[trigger] ot[q] by {
        assert(o[p] != o[q]);
    }
    assert forall|p: int| 0 <= p < t.len() implies #[trigger] t[p] == s0[ot[p]] by {
        assert(tag(o, p) < n);
        assert(t[p] == s[start + p]);
    }
    assert forall|p: int, q: int| 0 <= p < q < t.len() && !lt(r, #[trigger] t[p], #[trigger] t[q]) && !lt(r, t[q], t[p])
        implies ot[p] < ot[q] by {
        assert(tag(o, p) < n && tag(o, q) < n);
        assert(t[p] == s0[tag(o, p)] && t[q] == s0[tag(o, q)]);
        assert(before(r, s0[tag(o, p)], tag(o, p), s0[tag(o, q)], tag(o, q)));
    }
    lemma_tags_stable(t, s0, ot, r);
}

} // verus!
