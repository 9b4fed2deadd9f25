//! The stable merge of two sequences, as a specification, and the facts about
//! it that the merging algorithms rely on.
use vstd::prelude::*;
use core::cmp::Ordering;
use crate::order::{le, lt, is_total_preorder, lemma_order_facts};
use crate::search::sorted_between;
use crate::stability::{class_in, stable_perm, lemma_class_concat, lemma_equal_trans, lemma_class_witness};

verus! {

/// The stable merge of `a` and `b`: repeatedly take the head of `b` when it is
/// less than the head of `a`, and the head of `a` otherwise.
pub open spec fn merged<T>(a: Seq<T>, b: Seq<T>, r: spec_fn(T, T) -> Ordering) -> Seq<T>
    decreases a.len() + b.len(),
{
    if a.len() == 0 {
        b
    } else if b.len() == 0 {
        a
    } else if lt(r, b[0], a[0]) {
        seq![b[0]] + merged(a, b.drop_first(), r)
    } else {
        seq![a[0]] + merged(a.drop_first(), b, r)
    }
}

/// `s` never decreases under `r`.
pub open spec fn sorted_seq<T>(s: Seq<T>, r: spec_fn(T, T) -> Ordering) -> bool {
    forall|i: int, j: int| 0 <= i <= j < s.len() ==> le(r, #[trigger] s[i], #[trigger] s[j])
}

/// Items of `b` that are less than the head of `a` come out first.
pub proof fn lemma_merge_take_b<T>(a: Seq<T>, b1: Seq<T>, b2: Seq<T>, r: spec_fn(T, T) -> Ordering)
    requires
        a.len() > 0,
        forall|i: int| 0 <= i < b1.len() ==> lt(r, #[trigger] b1[i], a[0]),
    ensures
        merged(a, b1 + b2, r) == b1 + merged(a, b2, r),
    decreases b1.len(),
{
    if b1.len() == 0 {
        assert(b1 + b2 =~= b2);
        assert(b1 + merged(a, b2, r) =~= merged(a, b2, r));
    } else {
        let b = b1 + b2;
        assert(b[0] == b1[0]);
        assert(b.drop_first() =~= b1.drop_first() + b2);
        assert forall|i: int| 0 <= i < b1.drop_first().len() implies lt(r, #[trigger] b1.drop_first()[i], a[0]) by {
            assert(b1.drop_first()[i] == b1[i + 1]);
        }
        lemma_merge_take_b(a, b1.drop_first(), b2, r);
        assert(seq![b1[0]] + (b1.drop_first() + merged(a, b2, r)) =~= b1 + merged(a, b2, r));
    }
}

/// Items of `a` that the head of `b` is not less than come out first.
pub proof fn lemma_merge_take_a<T>(a1: Seq<T>, a2: Seq<T>, b: Seq<T>, r: spec_fn(T, T) -> Ordering)
    requires
        b.len() > 0,
        forall|i: int| 0 <= i < a1.len() ==> !lt(r, b[0], #[trigger] a1[i]),
    ensures
        merged(a1 + a2, b, r) == a1 + merged(a2, b, r),
    decreases a1.len(),
{
    if a1.len() == 0 {
        assert(a1 + a2 =~= a2);
        assert(a1 + merged(a2, b, r) =~= merged(a2, b, r));
    } else {
        let a = a1 + a2;
        assert(a[0] == a1[0]);
        assert(a.drop_first() =~= a1.drop_first() + a2);
        assert forall|i: int| 0 <= i < a1.drop_first().len() implies !lt(r, b[0], #[trigger] a1.drop_first()[i]) by {
            assert(a1.drop_first()[i] == a1[i + 1]);
        }
        lemma_merge_take_a(a1.drop_first(), a2, b, r);
        assert(seq![a1[0]] + (a1.drop_first() + merged(a2, b, r)) =~= a1 + merged(a2, b, r));
    }
}

pub proof fn lemma_merge_empty<T>(a: Seq<T>, b: Seq<T>, r: spec_fn(T, T) -> Ordering)
    ensures
        b.len() == 0 ==> merged(a, b, r) == a,
        a.len() == 0 ==> merged(a, b, r) == b,
{
}


/// When no item of `b` is less than an item of `a`, the merge is `a` then `b`.
pub proof fn lemma_merge_ordered<T>(a: Seq<T>, b: Seq<T>, r: spec_fn(T, T) -> Ordering)
    requires
        forall|i: int, j: int| 0 <= i < a.len() && 0 <= j < b.len() ==> !lt(r, #[trigger] b[j], #[trigger] a[i]),
    ensures
        merged(a, b, r) == a + b,
    decreases a.len(),
{
    if a.len() == 0 {
        assert(a + b =~= b);
    } else if b.len() == 0 {
        assert(a + b =~= a);
    } else {
        assert(!lt(r, b[0], a[0]));
        assert forall|i: int, j: int| 0 <= i < a.drop_first().len() && 0 <= j < b.len()
            implies !lt(r, #[trigger] b[j], #[trigger] a.drop_first()[i]) by {
            assert(a.drop_first()[i] == a[i + 1]);
        }
        lemma_merge_ordered(a.drop_first(), b, r);
        assert(seq![a[0]] + (a.drop_first() + b) =~= a + b);
    }
}

/// A tail of `b` that no item of `a` exceeds comes out last.
pub proof fn lemma_merge_tail_b<T>(a: Seq<T>, b1: Seq<T>, b2: Seq<T>, r: spec_fn(T, T) -> Ordering)
    requires
        forall|i: int, j: int| 0 <= i < a.len() && 0 <= j < b2.len() ==> !lt(r, #[trigger] b2[j], #[trigger] a[i]),
    ensures
        merged(a, b1 + b2, r) == merged(a, b1, r) + b2,
    decreases a.len() + b1.len(),
{
    if a.len() == 0 {
        assert(merged(a, b1, r) + b2 =~= b1 + b2);
    } else if b1.len() == 0 {
        assert(b1 + b2 =~= b2);
        lemma_merge_ordered(a, b2, r);
        lemma_merge_empty(a, b1, r);
    } else {
        let b = b1 + b2;
        assert(b[0] == b1[0]);
        if lt(r, b1[0], a[0]) {
            assert(b.drop_first() =~= b1.drop_first() + b2);
            lemma_merge_tail_b(a, b1.drop_first(), b2, r);
            assert(seq![b1[0]] + (merged(a, b1.drop_first(), r) + b2) =~= (seq![b1[0]] + merged(a, b1.drop_first(), r)) + b2);
        } else {
            assert forall|i: int, j: int| 0 <= i < a.drop_first().len() && 0 <= j < b2.len()
                implies !lt(r, #[trigger] b2[j], #[trigger] a.drop_first()[i]) by {
                assert(a.drop_first()[i] == a[i + 1]);
            }
            lemma_merge_tail_b(a.drop_first(), b1, b2, r);
            assert(seq![a[0]] + (merged(a.drop_first(), b1, r) + b2) =~= (seq![a[0]] + merged(a.drop_first(), b1, r)) + b2);
        }
    }
}

/// A tail of `a` greater than every item of `b` comes out last.
pub proof fn lemma_merge_tail_a<T>(a1: Seq<T>, a2: Seq<T>, b: Seq<T>, r: spec_fn(T, T) -> Ordering)
    requires
        forall|i: int, j: int| 0 <= i < a2.len() && 0 <= j < b.len() ==> lt(r, #[trigger] b[j], #[trigger] a2[i]),
    ensures
        merged(a1 + a2, b, r) == merged(a1, b, r) + a2,
    decreases a1.len() + b.len(),
{
    if b.len() == 0 {
        assert(merged(a1, b, r) + a2 =~= a1 + a2);
    } else if a1.len() == 0 {
        assert(a1 + a2 =~= a2);
        lemma_merge_all_b_first(a2, b, r);
        assert(merged(a1, b, r) == b);
    } else {
        let a = a1 + a2;
        assert(a[0] == a1[0]);
        if lt(r, b[0], a1[0]) {
            assert forall|i: int, j: int| 0 <= i < a2.len() && 0 <= j < b.drop_first().len()
                implies lt(r, #[trigger] b.drop_first()[j], #[trigger] a2[i]) by {
                assert(b.drop_first()[j] == b[j + 1]);
            }
            lemma_merge_tail_a(a1, a2, b.drop_first(), r);
            assert(seq![b[0]] + (merged(a1, b.drop_first(), r) + a2) =~= (seq![b[0]] + merged(a1, b.drop_first(), r)) + a2);
        } else {
            assert(a.drop_first() =~= a1.drop_first() + a2);
            lemma_merge_tail_a(a1.drop_first(), a2, b, r);
            assert(seq![a1[0]] + (merged(a1.drop_first(), b, r) + a2) =~= (seq![a1[0]] + merged(a1.drop_first(), b, r)) + a2);
        }
    }
}

/// When every item of `b` is less than every item of `a`, the merge is `b`
/// then `a`.
pub proof fn lemma_merge_all_b_first<T>(a: Seq<T>, b: Seq<T>, r: spec_fn(T, T) -> Ordering)
    requires
        forall|i: int, j: int| 0 <= i < a.len() && 0 <= j < b.len() ==> lt(r, #[trigger] b[j], #[trigger] a[i]),
    ensures
        merged(a, b, r) == b + a,
    decreases b.len(),
{
    if b.len() == 0 {
        assert(b + a =~= a);
    } else if a.len() == 0 {
        assert(b + a =~= b);
    } else {
        assert(lt(r, b[0], a[0]));
        assert forall|i: int, j: int| 0 <= i < a.len() && 0 <= j < b.drop_first().len()
            implies lt(r, #[trigger] b.drop_first()[j], #[trigger] a[i]) by {
            assert(b.drop_first()[j] == b[j + 1]);
        }
        lemma_merge_all_b_first(a, b.drop_first(), r);
        assert(seq![b[0]] + (b.drop_first() + a) =~= b + a);
    }
}

/// An item not greater than every item of `a` and of `b` is not greater than
/// any item of their merge.
pub proof fn lemma_merge_lower_bound<T>(a: Seq<T>, b: Seq<T>, y: T, r: spec_fn(T, T) -> Ordering)
    requires
        forall|i: int| 0 <= i < a.len() ==> le(r, y, #[trigger] a[i]),
        forall|j: int| 0 <= j < b.len() ==> le(r, y, #[trigger] b[j]),
    ensures
        forall|k: int| 0 <= k < merged(a, b, r).len() ==> le(r, y, #[trigger] merged(a, b, r)[k]),
        merged(a, b, r).len() == a.len() + b.len(),
    decreases a.len() + b.len(),
{
    if a.len() == 0 || b.len() == 0 {
    } else if lt(r, b[0], a[0]) {
        assert forall|j: int| 0 <= j < b.drop_first().len() implies le(r, y, #[trigger] b.drop_first()[j]) by {
            assert(b.drop_first()[j] == b[j + 1]);
        }
        lemma_merge_lower_bound(a, b.drop_first(), y, r);
        let m = merged(a, b, r);
        assert forall|k: int| 0 <= k < m.len() implies le(r, y, #[trigger] m[k]) by {
            if k > 0 {
                assert(m[k] == merged(a, b.drop_first(), r)[k - 1]);
            }
        }
    } else {
        assert forall|i: int| 0 <= i < a.drop_first().len() implies le(r, y, #[trigger] a.drop_first()[i]) by {
            assert(a.drop_first()[i] == a[i + 1]);
        }
        lemma_merge_lower_bound(a.drop_first(), b, y, r);
        let m = merged(a, b, r);
        assert forall|k: int| 0 <= k < m.len() implies le(r, y, #[trigger] m[k]) by {
            if k > 0 {
                assert(m[k] == merged(a.drop_first(), b, r)[k - 1]);
            }
        }
    }
}

/// The merge of two sorted sequences is sorted, and it is a stable
/// reordering of the first followed by the second.
pub proof fn lemma_merge_sorted_stable<T>(a: Seq<T>, b: Seq<T>, r: spec_fn(T, T) -> Ordering)
    requires
        is_total_preorder(r),
        sorted_seq(a, r),
        sorted_seq(b, r),
    ensures
        sorted_seq(merged(a, b, r), r),
        stable_perm(merged(a, b, r), a + b, r),
        merged(a, b, r).len() == a.len() + b.len(),
    decreases a.len() + b.len(),
{
    lemma_order_facts(r);
    let m = merged(a, b, r);
    if a.len() == 0 {
        assert(a + b =~= b);
        assert(forall|x: T| #[trigger] class_in(m, x, r) == class_in(a + b, x, r));
    } else if b.len() == 0 {
        assert(a + b =~= a);
        assert(forall|x: T| #[trigger] class_in(m, x, r) == class_in(a + b, x, r));
    } else if lt(r, b[0], a[0]) {
        let b1 = b.drop_first();
        assert forall|i: int, j: int| 0 <= i <= j < b1.len() implies le(r, #[trigger] b1[i], #[trigger] b1[j]) by {
            assert(b1[i] == b[i + 1] && b1[j] == b[j + 1]);
        }
        lemma_merge_sorted_stable(a, b1, r);
        let rest = merged(a, b1, r);
        assert forall|i: int| 0 <= i < a.len() implies le(r, b[0], #[trigger] a[i]) by {
            assert(le(r, a[0], a[i]));
        }
        assert forall|j: int| 0 <= j < b1.len() implies le(r, b[0], #[trigger] b1[j]) by {
            assert(b1[j] == b[j + 1]);
            assert(le(r, b[0], b[j + 1]));
        }
        lemma_merge_lower_bound(a, b1, b[0], r);
        assert(m == seq![b[0]] + rest);
        assert forall|i: int, j: int| 0 <= i <= j < m.len() implies le(r, #[trigger] m[i], #[trigger] m[j]) by {
            if i == 0 {
                if j > 0 {
                    assert(m[j] == rest[j - 1]);
                }
            } else {
                assert(m[i] == rest[i - 1] && m[j] == rest[j - 1]);
            }
        }
        // Stability: the head of `b` is in no class that `a` meets.
        lemma_class_concat(seq![b[0]], rest, r);
        lemma_class_concat(a, b1, r);
        lemma_class_concat(a, b, r);
        lemma_class_concat(seq![b[0]], b1, r);
        assert(b =~= seq![b[0]] + b1);
        assert forall|x: T| #[trigger] class_in(m, x, r) == class_in(a + b, x, r) by {
            let cb = class_in(seq![b[0]], x, r);
            let ca = class_in(a, x, r);
            if cb.len() > 0 && ca.len() > 0 {
                lemma_class_witness(seq![b[0]], x, r);
                lemma_class_witness(a, x, r);
                let i = choose|i: int| 0 <= i < a.len() && r(#[trigger] a[i], x) == Ordering::Equal;
                assert(r(seq![b[0]][0], x) == Ordering::Equal);
                lemma_equal_trans(r, b[0], a[i], x);
                assert(le(r, a[0], a[i]));
            } else {
                assert(cb + (ca + class_in(b1, x, r)) =~= ca + (cb + class_in(b1, x, r)));
            }
        }
    } else {
        let a1 = a.drop_first();
        assert forall|i: int, j: int| 0 <= i <= j < a1.len() implies le(r, #[trigger] a1[i], #[trigger] a1[j]) by {
            assert(a1[i] == a[i + 1] && a1[j] == a[j + 1]);
        }
        lemma_merge_sorted_stable(a1, b, r);
        let rest = merged(a1, b, r);
        assert forall|i: int| 0 <= i < a1.len() implies le(r, a[0], #[trigger] a1[i]) by {
            assert(a1[i] == a[i + 1]);
            assert(le(r, a[0], a[i + 1]));
        }
        assert forall|j: int| 0 <= j < b.len() implies le(r, a[0], #[trigger] b[j]) by {
            assert(le(r, b[0], b[j]));
        }
        lemma_merge_lower_bound(a1, b, a[0], r);
        assert(m == seq![a[0]] + rest);
        assert forall|i: int, j: int| 0 <= i <= j < m.len() implies le(r, #[trigger] m[i], #[trigger] m[j]) by {
            if i == 0 {
                if j > 0 {
                    assert(m[j] == rest[j - 1]);
                }
            } else {
                assert(m[i] == rest[i - 1] && m[j] == rest[j - 1]);
            }
        }
        lemma_class_concat(seq![a[0]], rest, r);
        lemma_class_concat(a1, b, r);
        lemma_class_concat(seq![a[0]], a1 + b, r);
        assert(a + b =~= seq![a[0]] + (a1 + b));
    }
}

/// The merge splits at a pivot: when the front of `a` comes before the back of
/// `b`, and the front of `b` before the back of `a`, the fronts merge apart
/// from the backs.
pub proof fn lemma_merge_split<T>(a1: Seq<T>, a2: Seq<T>, b1: Seq<T>, b2: Seq<T>, r: spec_fn(T, T) -> Ordering)
    requires
        forall|i: int, j: int| 0 <= i < a1.len() && 0 <= j < b2.len() ==> !lt(r, #[trigger] b2[j], #[trigger] a1[i]),
        forall|i: int, j: int| 0 <= i < b1.len() && 0 <= j < a2.len() ==> lt(r, #[trigger] b1[i], #[trigger] a2[j]),
    ensures
        merged(a1 + a2, b1 + b2, r) == merged(a1, b1, r) + merged(a2, b2, r),
    decreases a1.len() + b1.len(),
{
    let a = a1 + a2;
    let b = b1 + b2;
    if a1.len() == 0 && b1.len() == 0 {
        assert(a =~= a2);
        assert(b =~= b2);
        assert(merged(a1, b1, r) + merged(a2, b2, r) =~= merged(a2, b2, r));
    } else if a1.len() > 0 && (b1.len() == 0 || !lt(r, b1[0], a1[0])) {
        // The head of `a1` comes first on both sides.
        assert(a[0] == a1[0]);
        assert(a.drop_first() =~= a1.drop_first() + a2);
        if b.len() > 0 {
            if b1.len() == 0 {
                assert(b[0] == b2[0]);
            } else {
                assert(b[0] == b1[0]);
            }
            assert(!lt(r, b[0], a[0]));
        }
        assert forall|i: int, j: int| 0 <= i < a1.drop_first().len() && 0 <= j < b2.len()
            implies !lt(r, #[trigger] b2[j], #[trigger] a1.drop_first()[i]) by {
            assert(a1.drop_first()[i] == a1[i + 1]);
        }
        lemma_merge_split(a1.drop_first(), a2, b1, b2, r);
        if b1.len() == 0 {
            lemma_merge_empty(a1, b1, r);
            lemma_merge_empty(a1.drop_first(), b1, r);
            assert(merged(a1, b1, r) =~= seq![a1[0]] + merged(a1.drop_first(), b1, r));
        }
        assert(seq![a1[0]] + (merged(a1.drop_first(), b1, r) + merged(a2, b2, r))
            =~= (seq![a1[0]] + merged(a1.drop_first(), b1, r)) + merged(a2, b2, r));
    } else {
        // The head of `b1` comes first on both sides.
        assert(b1.len() > 0);
        assert(b[0] == b1[0]);
        assert(b.drop_first() =~= b1.drop_first() + b2);
        if a.len() > 0 {
            if a1.len() == 0 {
                assert(a[0] == a2[0]);
            } else {
                assert(a[0] == a1[0]);
            }
            assert(lt(r, b[0], a[0]));
        }
        assert forall|i: int, j: int| 0 <= i < b1.drop_first().len() && 0 <= j < a2.len()
            implies lt(r, #[trigger] b1.drop_first()[i], #[trigger] a2[j]) by {
            assert(b1.drop_first()[i] == b1[i + 1]);
        }
        lemma_merge_split(a1, a2, b1.drop_first(), b2, r);
        if a1.len() == 0 {
            lemma_merge_empty(a1, b1, r);
            lemma_merge_empty(a1, b1.drop_first(), r);
            assert(merged(a1, b1, r) =~= seq![b1[0]] + merged(a1, b1.drop_first(), r));
        }
        assert(seq![b1[0]] + (merged(a1, b1.drop_first(), r) + merged(a2, b2, r))
            =~= (seq![b1[0]] + merged(a1, b1.drop_first(), r)) + merged(a2, b2, r));
    }
}
} // verus!
