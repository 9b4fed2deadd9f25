//! Runs: a range cut into consecutive pieces of one width, each sorted, as a
//! bottom-up merge sort leaves it after each pass.
use vstd::prelude::*;
use core::cmp::Ordering;
use crate::order::{is_total_preorder, le};
use crate::search::sorted_between;
use crate::merge::{merged, sorted_seq, lemma_merge_sorted_stable};
use crate::stability::{stable_perm, lemma_stable_splice};

verus! {

/// Run `k` of width `w` among the first `n` items of `s` (the items at
/// `k * w` up to `k * w + w`, or up to `n` for the last run) is sorted.
pub open spec fn run_sorted<T>(s: Seq<T>, w: int, k: int, n: int, r: spec_fn(T, T) -> Ordering) -> bool {
    sorted_between(s, k * w, if k * w + w < n { k * w + w } else { n }, r)
}

/// Every run of width `w` among the first `n` items of `s` is sorted.
pub open spec fn runs_sorted<T>(s: Seq<T>, w: int, n: int, r: spec_fn(T, T) -> Ordering) -> bool {
    forall|k: int| 0 <= k && k * w < n ==> #[trigger] run_sorted(s, w, k, n, r)
}

/// A range where `t` agrees with `s` is sorted in `t` where it is in `s`.
pub proof fn lemma_sorted_same<T>(s: Seq<T>, t: Seq<T>, lo: int, hi: int, r: spec_fn(T, T) -> Ordering)
    requires
        forall|k: int| lo <= k < hi ==> #[trigger] t[k] == s[k],
        sorted_between(s, lo, hi, r),
    ensures
        sorted_between(t, lo, hi, r),
{
    assert forall|i: int, j: int| lo <= i <= j < hi implies le(r, #[trigger] t[i], #[trigger] t[j]) by {
        assert(t[i] == s[i] && t[j] == s[j]);
    }
}

/// Replacing two adjacent sorted ranges of `s` by their merge gives a sorted
/// range and a stable reordering of `s`.
pub proof fn lemma_merge_step<T>(s: Seq<T>, t: Seq<T>, lo: int, mid: int, hi: int, r: spec_fn(T, T) -> Ordering)
    requires
        is_total_preorder(r),
        0 <= lo <= mid <= hi <= s.len(),
        t.len() == s.len(),
        sorted_between(s, lo, mid, r),
        sorted_between(s, mid, hi, r),
        t.subrange(lo, hi) == merged(s.subrange(lo, mid), s.subrange(mid, hi), r),
        forall|k: int| 0 <= k < s.len() && !(lo <= k < hi) ==> #[trigger] t[k] == s[k],
    ensures
        sorted_between(t, lo, hi, r),
        stable_perm(t, s, r),
{
    let a = s.subrange(lo, mid);
    let b = s.subrange(mid, hi);
    assert forall|i: int, j: int| 0 <= i <= j < a.len() implies le(r, #[trigger] a[i], #[trigger] a[j]) by {
        assert(a[i] == s[lo + i] && a[j] == s[lo + j]);
    }
    assert forall|i: int, j: int| 0 <= i <= j < b.len() implies le(r, #[trigger] b[i], #[trigger] b[j]) by {
        assert(b[i] == s[mid + i] && b[j] == s[mid + j]);
    }
    lemma_merge_sorted_stable(a, b, r);
    let m = t.subrange(lo, hi);
    assert forall|i: int, j: int| lo <= i <= j < hi implies le(r, #[trigger] t[i], #[trigger] t[j]) by {
        assert(t[i] == m[i - lo] && t[j] == m[j - lo]);
    }
    assert(s.subrange(lo, hi) =~= a + b);
    lemma_stable_splice(t, s, lo, hi, r);
}

} // verus!
