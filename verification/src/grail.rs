//! GrailSort: a stable, in-place block merge sort, with the simpler stable
//! sorts built from its parts.
use vstd::prelude::*;
use core::cmp::Ordering;
use crate::order::{le, lt, is_total_preorder, is_comparator, compares_by, chosen_order, ord_order, lemma_comparator, lemma_order_facts, lemma_ord_total_preorder};
use vstd::std_specs::cmp::OrdSpec;
use crate::ops::{ix, nat_of, len_of, swap_items, swapped, lemma_swapped_multiset, rotated_range, blocks_swapped, pairwise_swapped, block_swap};
use crate::search::{sorted_between, is_first_position, is_last_position, lemma_first_position, lemma_last_position};
use crate::merge::{merged, lemma_merge_take_a, lemma_merge_take_b, lemma_merge_empty, lemma_merge_tail_a, lemma_merge_tail_b, lemma_merge_split};
use crate::stability::{stable_perm, lemma_swap_adjacent_stable, lemma_stable_trans};
use crate::runs::{run_sorted, runs_sorted, lemma_sorted_same, lemma_merge_step};
use crate::grail_blocks::{grail_common_sort, has_four_classes};

verus! {

/// Exchanges the `swaps_left` items from `a` with the `swaps_left` items
/// from `b`, one pair at a time.
pub fn grail_multi_swap<T>(arr: &mut [T], a: usize, b: usize, swaps_left: usize)
    requires
        a + swaps_left <= old(arr)@.len(),
        b + swaps_left <= old(arr)@.len(),
    ensures
        final(arr)@.len() == old(arr)@.len(),
        final(arr)@.to_multiset() == old(arr)@.to_multiset(),
        forall|k: int| 0 <= k < old(arr)@.len() && !(a <= k < a + swaps_left)
            && !(b <= k < b + swaps_left) ==> #[trigger] final(arr)@[k] == old(arr)@[k],
        final(arr)@ == pairwise_swapped(old(arr)@, ix(a), ix(b), nat_of(swaps_left)),
        a + swaps_left <= b || b + swaps_left <= a || a == b
            ==> final(arr)@ == blocks_swapped(old(arr)@, ix(a), ix(b), ix(swaps_left)),
{
    block_swap(arr, a, b, swaps_left);
}

/// Sorts the first `len` items of `arr` stably by insertion.
pub(crate) fn grail_insert_sort<T, F>(arr: &mut [T], len: usize, cmp: &F, Ghost(r): Ghost<spec_fn(T, T) -> Ordering>)
    where
        F: Fn(&T, &T) -> Ordering,
    requires
        compares_by(*cmp, r),
        len <= old(arr)@.len(),
    ensures
        final(arr)@.len() == old(arr)@.len(),
        final(arr)@.to_multiset() == old(arr)@.to_multiset(),
        forall|k: int| len <= k < old(arr)@.len() ==> #[trigger] final(arr)@[k] == old(arr)@[k],
        forall|q: spec_fn(T, T) -> Ordering| #[trigger] compares_by(*cmp, q) ==> {
            &&& sorted_between(final(arr)@, 0, ix(len), q)
            &&& stable_perm(final(arr)@.subrange(0, ix(len)), old(arr)@.subrange(0, ix(len)), q)
        },
{
    let ghost s0 = arr@;
    let ghost hi = ix(len);
    let n = len;
    if n == 0 {
        proof {
            assert forall|q: spec_fn(T, T) -> Ordering| #[trigger] compares_by(*cmp, q) implies
                stable_perm(arr@.subrange(0, hi), s0.subrange(0, hi), q) by {
                assert(arr@.subrange(0, hi) =~= s0.subrange(0, hi));
            }
        }
        return;
    }
    proof {
        assert forall|q: spec_fn(T, T) -> Ordering| #[trigger] compares_by(*cmp, q) implies
            sorted_between(arr@, 0, 1, q) && stable_perm(arr@.subrange(0, hi), s0.subrange(0, hi), q) by {
            lemma_order_facts(q);
            assert(arr@.subrange(0, hi) =~= s0.subrange(0, hi));
        }
    }
    let mut i: usize = 1;
    while i < n
        invariant
            compares_by(*cmp, r),
            n <= s0.len(),
            hi == n,
            forall|k: int| n <= k < s0.len() ==> #[trigger] arr@[k] == s0[k],
            1 <= i <= n,
            arr@.len() == s0.len(),
            arr@.to_multiset() == s0.to_multiset(),
            forall|q: spec_fn(T, T) -> Ordering| #[trigger] compares_by(*cmp, q) ==> {
                &&& sorted_between(arr@, 0, ix(i), q)
                &&& stable_perm(arr@.subrange(0, hi), s0.subrange(0, hi), q)
            },
        decreases n - i,
    {
        let mut j = i;
        loop
            invariant
                compares_by(*cmp, r),
                n <= s0.len(),
                hi == n,
                forall|k: int| n <= k < s0.len() ==> #[trigger] arr@[k] == s0[k],
                0 <= j <= i < n,
                arr@.len() == s0.len(),
                arr@.to_multiset() == s0.to_multiset(),
                forall|q: spec_fn(T, T) -> Ordering| #[trigger] compares_by(*cmp, q) ==> {
                    &&& forall|a: int, b: int| 0 <= a <= b <= i && a != j && b != j
                        ==> le(q, #[trigger] arr@[a], #[trigger] arr@[b])
                    &&& forall|k: int| j < k <= i ==> lt(q, arr@[ix(j)], #[trigger] arr@[k])
                    &&& stable_perm(arr@.subrange(0, hi), s0.subrange(0, hi), q)
                },
            ensures
                0 <= j <= i < n,
                forall|k: int| n <= k < s0.len() ==> #[trigger] arr@[k] == s0[k],
                arr@.len() == s0.len(),
                arr@.to_multiset() == s0.to_multiset(),
                forall|q: spec_fn(T, T) -> Ordering| #[trigger] compares_by(*cmp, q) ==> {
                    &&& forall|a: int, b: int| 0 <= a <= b <= i && a != j && b != j
                        ==> le(q, #[trigger] arr@[a], #[trigger] arr@[b])
                    &&& forall|k: int| j < k <= i ==> lt(q, arr@[ix(j)], #[trigger] arr@[k])
                    &&& (j > 0 ==> !lt(q, arr@[ix(j)], arr@[j - 1]))
                    &&& stable_perm(arr@.subrange(0, hi), s0.subrange(0, hi), q)
                },
            decreases j,
        {
            if j == 0 {
                break;
            }
            let o = cmp(&arr[j], &arr[j - 1]);
            let is_less = match o {
                Ordering::Less => true,
                _ => false,
            };
            if !is_less {
                break;
            }
            let ghost before = arr@;
            proof {
                lemma_swapped_multiset(before, j - 1, ix(j));
            }
            swap_items(arr, j - 1, j);
            j -= 1;
            proof {
                assert forall|q: spec_fn(T, T) -> Ordering| #[trigger] compares_by(*cmp, q) implies {
                    &&& forall|a: int, b: int| 0 <= a <= b <= i && a != j && b != j
                        ==> le(q, #[trigger] arr@[a], #[trigger] arr@[b])
                    &&& forall|k: int| j < k <= i ==> lt(q, arr@[ix(j)], #[trigger] arr@[k])
                    &&& stable_perm(arr@.subrange(0, hi), s0.subrange(0, hi), q)
                } by {
                    lemma_order_facts(q);
                    assert(q(before[ix(j)], before[j + 1]) == Ordering::Greater);
                    lemma_swap_adjacent_stable(before, 0, hi, j + 1, q);
                    assert(swapped(before, ix(j), j + 1) =~= before.update(ix(j), before[j + 1]).update(j + 1, before[ix(j)]));
                    lemma_stable_trans(arr@.subrange(0, hi), before.subrange(0, hi), s0.subrange(0, hi), q);
                    assert forall|a: int, b: int| 0 <= a <= b <= i && a != j && b != j
                        implies le(q, #[trigger] arr@[a], #[trigger] arr@[b]) by {
                        let a0: int = if a == j + 1 { ix(j) } else { a };
                        let b0: int = if b == j + 1 { ix(j) } else { b };
                        assert(arr@[a] == before[a0]);
                        assert(arr@[b] == before[b0]);
                        if a0 <= b0 {
                            assert(le(q, before[a0], before[b0]));
                        }
                    }
                    assert forall|k: int| j < k <= i implies lt(q, arr@[ix(j)], #[trigger] arr@[k]) by {
                        if k == j + 1 {
                        } else {
                            assert(lt(q, before[j + 1], before[k]));
                        }
                    }
                }
            }
        }
        proof {
            assert forall|q: spec_fn(T, T) -> Ordering| #[trigger] compares_by(*cmp, q) implies
                sorted_between(arr@, 0, i + 1, q) by {
                lemma_order_facts(q);
                assert forall|a: int, b: int| 0 <= a <= b < i + 1
                    implies le(q, #[trigger] arr@[a], #[trigger] arr@[b]) by {
                    if a == j && b != j {
                        assert(lt(q, arr@[ix(j)], arr@[b]));
                    } else if b == j && a != j {
                        assert(le(q, arr@[a], arr@[j - 1]));
                        assert(le(q, arr@[j - 1], arr@[ix(j)]));
                    }
                }
            }
        }
        i += 1;
    }
}

/// Exchanges the `len_a` items at `start` with the `len_b` items after
/// them, by block swaps.
pub fn grail_rotate<T>(arr: &mut [T], start: usize, len_a: usize, len_b: usize)
    requires
        start + len_a + len_b <= old(arr)@.len(),
    ensures
        final(arr)@ == rotated_range(old(arr)@, ix(len_a), ix(start), start + len_a + len_b),
        final(arr)@.to_multiset() == old(arr)@.to_multiset(),
{
    let ghost s0 = arr@;
    let ghost target = rotated_range(s0, ix(len_a), ix(start), start + len_a + len_b);
    let ghost hi = start + len_a + len_b;
    let ghost la0 = ix(len_a);
    let n = arr.len();
    let mut base = start;
    let mut len_a = len_a;
    let mut len_b = len_b;
    while len_a > 0 && len_b > 0
        invariant
            n == s0.len(),
            base + len_a + len_b <= hi,
            hi <= s0.len(),
            ix(start) <= base,
            arr@.len() == s0.len(),
            arr@.to_multiset() == s0.to_multiset(),
            target == rotated_range(s0, la0, ix(start), hi),
            rotated_range(arr@, ix(len_a), ix(base), base + len_a + len_b) == target,
        decreases len_a + len_b,
    {
        let ghost cur = arr@;
        if len_a <= len_b {
            grail_multi_swap(arr, base, base + len_a, len_a);
            proof {
                assert(rotated_range(arr@, ix(len_a), base + len_a, base + len_a + len_b)
                    =~= rotated_range(cur, ix(len_a), ix(base), base + len_a + len_b));
            }
            base += len_a;
            len_b -= len_a;
            proof {
                if len_b == 0 {
                    assert(rotated_range(arr@, ix(len_a), ix(base), ix(base) + len_a) =~= arr@);
                }
            }
        } else {
            grail_multi_swap(arr, base + len_a - len_b, base + len_a, len_b);
            proof {
                assert(rotated_range(arr@, len_a - len_b, ix(base), ix(base) + len_a)
                    =~= rotated_range(cur, ix(len_a), ix(base), base + len_a + len_b));
            }
            len_a -= len_b;
        }
    }
    proof {
        assert(rotated_range(arr@, ix(len_a), ix(base), base + len_a + len_b) =~= arr@);
    }
}


/// The number of leading items among the `len` items at `start` that are less
/// than `key` (with `dir` false) or not greater than it (with `dir` true), for
/// a sorted run. Whatever the run holds, the item before the result fails the
/// test that the item at the result passes.
pub(crate) fn grail_binary_search<T, F>(arr: &[T], start: usize, len: usize, key: &T, dir: bool, cmp: &F, Ghost(r): Ghost<spec_fn(T, T) -> Ordering>) -> (res: usize)
    where
        F: Fn(&T, &T) -> Ordering,
    requires
        compares_by(*cmp, r),
        start + len <= arr@.len(),
    ensures
        res <= len,
        !dir ==> {
            &&& res > 0 ==> lt(r, arr@[start + res - 1], *key)
            &&& res < len ==> !lt(r, arr@[start + res], *key)
            &&& sorted_between(arr@, ix(start), start + len, r)
                ==> is_first_position(arr@, *key, ix(start), start + len, start + res, r)
        },
        dir ==> {
            &&& res > 0 ==> !lt(r, *key, arr@[start + res - 1])
            &&& res < len ==> lt(r, *key, arr@[start + res])
            &&& sorted_between(arr@, ix(start), start + len, r)
                ==> is_last_position(arr@, *key, ix(start), start + len, start + res, r)
        },
{
    let n = arr.len();
    // `lo` stands one past the last position known to fail the test.
    let mut lo: usize = 0;
    let mut right = len;
    while lo < right
        invariant
            compares_by(*cmp, r),
            n == arr@.len(),
            start + len <= arr@.len(),
            lo <= right <= len,
            !dir ==> (lo > 0 ==> lt(r, arr@[start + lo - 1], *key)),
            !dir ==> (right < len ==> !lt(r, arr@[start + right], *key)),
            dir ==> (lo > 0 ==> !lt(r, *key, arr@[start + lo - 1])),
            dir ==> (right < len ==> lt(r, *key, arr@[start + right])),
        decreases right - lo,
    {
        let diff = right - lo;
        let down = diff >> 1;
        assert(down == diff / 2) by (bit_vector)
            requires down == diff >> 1;
        let half = diff - down;
        let mid = lo + half - 1;
        let o = cmp(&arr[start + mid], key);
        if !dir {
            match o {
                Ordering::Less => {
                    lo = mid + 1;
                },
                _ => {
                    right = mid;
                },
            }
        } else {
            match o {
                Ordering::Greater => {
                    proof {
                        lemma_order_facts(r);
                        assert(r(arr@[start + mid], *key) == Ordering::Greater);
                        assert(lt(r, *key, arr@[start + mid]));
                    }
                    right = mid;
                },
                _ => {
                    proof {
                        lemma_order_facts(r);
                        assert(r(arr@[start + mid], *key) != Ordering::Greater);
                        assert(!lt(r, *key, arr@[start + mid]));
                    }
                    lo = mid + 1;
                },
            }
        }
    }
    proof {
        if sorted_between(arr@, ix(start), start + len, r) {
            if !dir {
                lemma_first_position(arr@, *key, ix(start), start + len, start + right, r);
            } else {
                lemma_last_position(arr@, *key, ix(start), start + len, start + right, r);
            }
        }
    }
    right
}


/// Counts the items of `a` (the `len1` items at `base`) to leave in front of
/// the item just after them: the first one, and those after it that are not
/// greater than that item.
fn skip_not_greater<T, F>(arr: &[T], base: usize, len1: usize, cmp: &F, Ghost(r): Ghost<spec_fn(T, T) -> Ordering>) -> (k: usize)
    where
        F: Fn(&T, &T) -> Ordering,
    requires
        compares_by(*cmp, r),
        len1 >= 1,
        base + len1 < arr@.len(),
    ensures
        1 <= k <= len1,
        forall|i: int| base + 1 <= i < base + k ==> !lt(r, arr@[base + len1], #[trigger] arr@[i]),
        k < len1 ==> lt(r, arr@[base + len1], arr@[base + k]),
{
    let n = arr.len();
    let mut k: usize = 0;
    loop
        invariant_except_break
            k < len1,
            forall|i: int| base + 1 <= i < base + k + 1 ==> !lt(r, arr@[base + len1], #[trigger] arr@[i]),
        invariant
            compares_by(*cmp, r),
            n == arr@.len(),
            k <= len1,
            base + len1 < arr@.len(),
        ensures
            1 <= k <= len1,
            forall|i: int| base + 1 <= i < base + k ==> !lt(r, arr@[base + len1], #[trigger] arr@[i]),
            k < len1 ==> lt(r, arr@[base + len1], arr@[base + k]),
        decreases len1 - k,
    {
        k += 1;
        if k == len1 {
            break;
        }
        let o = cmp(&arr[base + k], &arr[base + len1]);
        match o {
            Ordering::Greater => {
                proof {
                    lemma_order_facts(r);
                    assert(r(arr@[base + k], arr@[base + len1]) == Ordering::Greater);
                }
                break;
            },
            _ => {
                proof {
                    lemma_order_facts(r);
                    assert(r(arr@[base + k], arr@[base + len1]) != Ordering::Greater);
                }
            },
        }
    }
    k
}

/// Counts down the items of `b` (the `len2` items at `b_start`) to leave
/// behind the item at `a_last`: the last one, and those before it that the
/// item at `a_last` is not greater than. Returns how many items of `b`
/// remain before them.
fn skip_not_less<T, F>(arr: &[T], a_last: usize, b_start: usize, len2: usize, cmp: &F, Ghost(r): Ghost<spec_fn(T, T) -> Ordering>) -> (m: usize)
    where
        F: Fn(&T, &T) -> Ordering,
    requires
        compares_by(*cmp, r),
        len2 >= 1,
        b_start + len2 <= arr@.len(),
        a_last < arr@.len(),
    ensures
        m < len2,
        forall|j: int| b_start + m <= j < b_start + len2 - 1 ==> le(r, arr@[ix(a_last)], #[trigger] arr@[j]),
        m > 0 ==> lt(r, arr@[b_start + m - 1], arr@[ix(a_last)]),
{
    let mut m = len2;
    loop
        invariant_except_break
            0 < m,
            forall|j: int| b_start + m - 1 <= j < b_start + len2 - 1 ==> le(r, arr@[ix(a_last)], #[trigger] arr@[j]),
        invariant
            compares_by(*cmp, r),
            m <= len2,
            b_start + len2 <= arr@.len(),
            a_last < arr@.len(),
        ensures
            m < len2,
            forall|j: int| b_start + m <= j < b_start + len2 - 1 ==> le(r, arr@[ix(a_last)], #[trigger] arr@[j]),
            m > 0 ==> lt(r, arr@[b_start + m - 1], arr@[ix(a_last)]),
        decreases m,
    {
        m -= 1;
        if m == 0 {
            break;
        }
        let o = cmp(&arr[a_last], &arr[b_start + m - 1]);
        match o {
            Ordering::Greater => {
                proof {
                    lemma_order_facts(r);
                    assert(r(arr@[ix(a_last)], arr@[b_start + m - 1]) == Ordering::Greater);
                }
                break;
            },
            _ => {},
        }
    }
    m
}


/// The merge of two adjacent sorted runs equals their stable merge.
pub open spec fn merges_to<T>(s0: Seq<T>, s1: Seq<T>, lo: int, mid: int, hi: int, r: spec_fn(T, T) -> Ordering) -> bool {
    sorted_between(s0, lo, mid, r) && sorted_between(s0, mid, hi, r)
        ==> s1.subrange(lo, hi) == merged(s0.subrange(lo, mid), s0.subrange(mid, hi), r)
}

/// The forward half of `grail_merge_without_buffer`: while items of `a`
/// remain, rotate the items of `b` less than the first of `a` in front of
/// `a`, then step over the items of `a` not greater than the next of `b`.
fn merge_forward<T, F>(arr: &mut [T], start: usize, len1: usize, len2: usize, cmp: &F, Ghost(r): Ghost<spec_fn(T, T) -> Ordering>)
    where
        F: Fn(&T, &T) -> Ordering,
    requires
        compares_by(*cmp, r),
        start + len1 + len2 <= old(arr)@.len(),
    ensures
        final(arr)@.len() == old(arr)@.len(),
        final(arr)@.to_multiset() == old(arr)@.to_multiset(),
        forall|k: int| 0 <= k < old(arr)@.len() && !(start <= k < start + len1 + len2)
            ==> #[trigger] final(arr)@[k] == old(arr)@[k],
        merges_to(old(arr)@, final(arr)@, ix(start), start + len1, start + len1 + len2, r),
{
    let ghost s0 = arr@;
    let ghost lo = ix(start);
    let ghost hi = start + len1 + len2;
    let ghost srt = sorted_between(s0, ix(start), start + len1, r) && sorted_between(s0, start + len1, hi, r);
    let ghost target = merged(s0.subrange(ix(start), start + len1), s0.subrange(start + len1, hi), r);
    let n = arr.len();
    proof {
        assert(s0.subrange(lo, lo) + target =~= target);
    }
    let mut base = start;
    let mut len1 = len1;
    let mut len2 = len2;
    while len1 != 0
        invariant
            compares_by(*cmp, r),
            n == s0.len(),
            0 <= lo <= base,
            base + len1 + len2 == hi,
            hi <= s0.len(),
            arr@.len() == s0.len(),
            arr@.to_multiset() == s0.to_multiset(),
            forall|k: int| 0 <= k < s0.len() && !(lo <= k < hi) ==> #[trigger] arr@[k] == s0[k],
            srt ==> {
                &&& sorted_between(arr@, ix(base), base + len1, r)
                &&& sorted_between(arr@, base + len1, hi, r)
                &&& arr@.subrange(lo, ix(base)) + merged(arr@.subrange(ix(base), base + len1), arr@.subrange(base + len1, hi), r) == target
            },
        ensures
            arr@.len() == s0.len(),
            arr@.to_multiset() == s0.to_multiset(),
            forall|k: int| 0 <= k < s0.len() && !(lo <= k < hi) ==> #[trigger] arr@[k] == s0[k],
            srt ==> arr@.subrange(lo, hi) == target,
        decreases len1,
    {
        let ghost s = arr@;
        let loc = grail_binary_search(arr, base + len1, len2, &arr[base], false, cmp, Ghost(r));
        if loc != 0 {
            grail_rotate(arr, base, len1, loc);
            proof {
                if srt {
                    lemma_forward_rotate(s, arr@, lo, ix(base), ix(len1), ix(loc), hi, target, r);
                }
            }
            base += loc;
            len2 -= loc;
        }
        if len2 == 0 {
            proof {
                if srt {
                    let s1 = arr@;
                    lemma_merge_empty(s1.subrange(ix(base), base + len1), s1.subrange(base + len1, hi), r);
                    assert(s1.subrange(lo, hi) =~= s1.subrange(lo, ix(base)) + s1.subrange(ix(base), base + len1));
                }
            }
            break;
        }
        let k = skip_not_greater(arr, base, len1, cmp, Ghost(r));
        proof {
            if srt {
                lemma_forward_skip(arr@, lo, ix(base), ix(len1), ix(k), hi, target, r);
            }
        }
        base += k;
        len1 -= k;
        proof {
            if srt && len1 == 0 {
                let s1 = arr@;
                lemma_merge_empty(s1.subrange(ix(base), base + len1), s1.subrange(base + len1, hi), r);
                assert(s1.subrange(lo, hi) =~= s1.subrange(lo, ix(base)) + s1.subrange(base + len1, hi));
            }
        }
    }
}

proof fn lemma_forward_rotate<T>(s: Seq<T>, s1: Seq<T>, lo: int, base: int, len1: int, loc: int, hi: int, target: Seq<T>, r: spec_fn(T, T) -> Ordering)
    requires
        is_total_preorder(r),
        0 <= lo <= base,
        0 < loc,
        base + len1 + loc <= hi <= s.len(),
        len1 > 0,
        s1 == rotated_range(s, len1, base, base + len1 + loc),
        sorted_between(s, base, base + len1, r),
        sorted_between(s, base + len1, hi, r),
        s.subrange(lo, base) + merged(s.subrange(base, base + len1), s.subrange(base + len1, hi), r) == target,
        forall|i: int| base + len1 <= i < base + len1 + loc ==> lt(r, #[trigger] s[i], s[base]),
    ensures
        sorted_between(s1, base + loc, base + loc + len1, r),
        sorted_between(s1, base + loc + len1, hi, r),
        s1.subrange(lo, base + loc) + merged(s1.subrange(base + loc, base + loc + len1), s1.subrange(base + loc + len1, hi), r) == target,
{
    let pa = s.subrange(lo, base);
    let sa = s.subrange(base, base + len1);
    let b1 = s.subrange(base + len1, base + len1 + loc);
    let b2 = s.subrange(base + len1 + loc, hi);
    assert(s.subrange(base + len1, hi) =~= b1 + b2);
    assert forall|i: int| 0 <= i < b1.len() implies lt(r, #[trigger] b1[i], sa[0]) by {
        assert(b1[i] == s[base + len1 + i]);
    }
    lemma_merge_take_b(sa, b1, b2, r);
    assert(s1.subrange(lo, base + loc) =~= pa + b1);
    assert(s1.subrange(base + loc, base + loc + len1) =~= sa);
    assert(s1.subrange(base + loc + len1, hi) =~= b2);
    assert(pa + (b1 + merged(sa, b2, r)) =~= (pa + b1) + merged(sa, b2, r));
    assert forall|i: int, j: int| base + loc <= i <= j < base + loc + len1
        implies le(r, #[trigger] s1[i], #[trigger] s1[j]) by {
        assert(s1[i] == s[i - loc]);
        assert(s1[j] == s[j - loc]);
    }
    assert forall|i: int, j: int| base + loc + len1 <= i <= j < hi
        implies le(r, #[trigger] s1[i], #[trigger] s1[j]) by {
        assert(s1[i] == s[i]);
        assert(s1[j] == s[j]);
    }
}

proof fn lemma_forward_skip<T>(s: Seq<T>, lo: int, base: int, len1: int, k: int, hi: int, target: Seq<T>, r: spec_fn(T, T) -> Ordering)
    requires
        is_total_preorder(r),
        0 <= lo <= base,
        1 <= k <= len1,
        base + len1 < hi <= s.len(),
        sorted_between(s, base, base + len1, r),
        sorted_between(s, base + len1, hi, r),
        s.subrange(lo, base) + merged(s.subrange(base, base + len1), s.subrange(base + len1, hi), r) == target,
        !lt(r, s[base + len1], s[base]),
        forall|i: int| base + 1 <= i < base + k ==> !lt(r, s[base + len1], #[trigger] s[i]),
    ensures
        sorted_between(s, base + k, base + len1, r),
        s.subrange(lo, base + k) + merged(s.subrange(base + k, base + len1), s.subrange(base + len1, hi), r) == target,
{
    let a1 = s.subrange(base, base + k);
    let a2 = s.subrange(base + k, base + len1);
    let b2 = s.subrange(base + len1, hi);
    assert(s.subrange(base, base + len1) =~= a1 + a2);
    assert(b2[0] == s[base + len1]);
    assert forall|i: int| 0 <= i < a1.len() implies !lt(r, b2[0], #[trigger] a1[i]) by {
        assert(a1[i] == s[base + i]);
    }
    lemma_merge_take_a(a1, a2, b2, r);
    assert(s.subrange(lo, base + k) =~= s.subrange(lo, base) + a1);
    assert(s.subrange(lo, base) + (a1 + merged(a2, b2, r)) =~= s.subrange(lo, base + k) + merged(a2, b2, r));
}

/// The backward half of `grail_merge_without_buffer`: while items of `b`
/// remain, rotate the items of `a` greater than the last of `b` behind `b`,
/// then step back over the items of `b` not less than the last of `a`.
fn merge_backward<T, F>(arr: &mut [T], start: usize, len1: usize, len2: usize, cmp: &F, Ghost(r): Ghost<spec_fn(T, T) -> Ordering>)
    where
        F: Fn(&T, &T) -> Ordering,
    requires
        compares_by(*cmp, r),
        start + len1 + len2 <= old(arr)@.len(),
    ensures
        final(arr)@.len() == old(arr)@.len(),
        final(arr)@.to_multiset() == old(arr)@.to_multiset(),
        forall|k: int| 0 <= k < old(arr)@.len() && !(start <= k < start + len1 + len2)
            ==> #[trigger] final(arr)@[k] == old(arr)@[k],
        merges_to(old(arr)@, final(arr)@, ix(start), start + len1, start + len1 + len2, r),
{
    let ghost s0 = arr@;
    let ghost lo = ix(start);
    let ghost hi = start + len1 + len2;
    let ghost srt = sorted_between(s0, ix(start), start + len1, r) && sorted_between(s0, start + len1, hi, r);
    let ghost target = merged(s0.subrange(ix(start), start + len1), s0.subrange(start + len1, hi), r);
    let n = arr.len();
    proof {
        assert(target + s0.subrange(hi, hi) =~= target);
    }
    let mut len1 = len1;
    let mut len2 = len2;
    while len2 != 0
        invariant
            compares_by(*cmp, r),
            n == s0.len(),
            0 <= lo,
            start == lo,
            lo + len1 + len2 <= hi,
            hi <= s0.len(),
            arr@.len() == s0.len(),
            arr@.to_multiset() == s0.to_multiset(),
            forall|k: int| 0 <= k < s0.len() && !(lo <= k < hi) ==> #[trigger] arr@[k] == s0[k],
            srt ==> {
                &&& sorted_between(arr@, lo, lo + len1, r)
                &&& sorted_between(arr@, lo + len1, lo + len1 + len2, r)
                &&& merged(arr@.subrange(lo, lo + len1), arr@.subrange(lo + len1, lo + len1 + len2), r)
                    + arr@.subrange(lo + len1 + len2, hi) == target
            },
        ensures
            arr@.len() == s0.len(),
            arr@.to_multiset() == s0.to_multiset(),
            forall|k: int| 0 <= k < s0.len() && !(lo <= k < hi) ==> #[trigger] arr@[k] == s0[k],
            srt ==> arr@.subrange(lo, hi) == target,
        decreases len2,
    {
        let ghost s = arr@;
        let loc = grail_binary_search(arr, start, len1, &arr[start + len1 + len2 - 1], true, cmp, Ghost(r));
        if loc != len1 {
            grail_rotate(arr, start + loc, len1 - loc, len2);
            proof {
                if srt {
                    lemma_backward_rotate(s, arr@, lo, ix(len1), ix(loc), ix(len2), hi, target, r);
                }
            }
            len1 = loc;
        }
        if len1 == 0 {
            proof {
                if srt {
                    let s1 = arr@;
                    lemma_merge_empty(s1.subrange(lo, lo + len1), s1.subrange(lo + len1, lo + len1 + len2), r);
                    assert(s1.subrange(lo, hi) =~= s1.subrange(lo + len1, lo + len1 + len2) + s1.subrange(lo + len1 + len2, hi));
                }
            }
            break;
        }
        let m = skip_not_less(arr, start + len1 - 1, start + len1, len2, cmp, Ghost(r));
        proof {
            if srt {
                lemma_backward_skip(arr@, lo, ix(len1), ix(len2), ix(m), hi, target, r);
            }
        }
        len2 = m;
        proof {
            if srt && len2 == 0 {
                let s1 = arr@;
                lemma_merge_empty(s1.subrange(lo, lo + len1), s1.subrange(lo + len1, lo + len1), r);
                assert(s1.subrange(lo, hi) =~= s1.subrange(lo, lo + len1) + s1.subrange(lo + len1, hi));
            }
        }
    }
}

proof fn lemma_backward_rotate<T>(s: Seq<T>, s1: Seq<T>, lo: int, len1: int, loc: int, len2: int, hi: int, target: Seq<T>, r: spec_fn(T, T) -> Ordering)
    requires
        is_total_preorder(r),
        0 <= lo,
        0 <= loc < len1,
        len2 > 0,
        lo + len1 + len2 <= hi <= s.len(),
        s1 == rotated_range(s, len1 - loc, lo + loc, lo + len1 + len2),
        sorted_between(s, lo, lo + len1, r),
        sorted_between(s, lo + len1, lo + len1 + len2, r),
        merged(s.subrange(lo, lo + len1), s.subrange(lo + len1, lo + len1 + len2), r) + s.subrange(lo + len1 + len2, hi) == target,
        forall|i: int| lo + loc <= i < lo + len1 ==> lt(r, s[lo + len1 + len2 - 1], #[trigger] s[i]),
    ensures
        sorted_between(s1, lo, lo + loc, r),
        sorted_between(s1, lo + loc, lo + loc + len2, r),
        merged(s1.subrange(lo, lo + loc), s1.subrange(lo + loc, lo + loc + len2), r) + s1.subrange(lo + loc + len2, hi) == target,
        s1[lo + loc + len2 - 1] == s[lo + len1 + len2 - 1],
{
    lemma_order_facts(r);
    let e = lo + len1 + len2;
    let a1 = s.subrange(lo, lo + loc);
    let a2 = s.subrange(lo + loc, lo + len1);
    let sb = s.subrange(lo + len1, e);
    let tail = s.subrange(e, hi);
    assert(s.subrange(lo, lo + len1) =~= a1 + a2);
    assert forall|i: int, j: int| 0 <= i < a2.len() && 0 <= j < sb.len()
        implies lt(r, #[trigger] sb[j], #[trigger] a2[i]) by {
        assert(a2[i] == s[lo + loc + i]);
        assert(sb[j] == s[lo + len1 + j]);
        assert(lt(r, s[e - 1], s[lo + loc + i]));
        assert(le(r, s[lo + len1 + j], s[e - 1]));
    }
    lemma_merge_tail_a(a1, a2, sb, r);
    assert(s1.subrange(lo, lo + loc) =~= a1);
    assert(s1.subrange(lo + loc, lo + loc + len2) =~= sb);
    assert(s1.subrange(lo + loc + len2, hi) =~= a2 + tail);
    assert((merged(a1, sb, r) + a2) + tail =~= merged(a1, sb, r) + (a2 + tail));
    assert forall|i: int, j: int| lo <= i <= j < lo + loc
        implies le(r, #[trigger] s1[i], #[trigger] s1[j]) by {
        assert(s1[i] == s[i]);
        assert(s1[j] == s[j]);
    }
    assert forall|i: int, j: int| lo + loc <= i <= j < lo + loc + len2
        implies le(r, #[trigger] s1[i], #[trigger] s1[j]) by {
        assert(s1[i] == s[i + (len1 - loc)]);
        assert(s1[j] == s[j + (len1 - loc)]);
    }
}

proof fn lemma_backward_skip<T>(s: Seq<T>, lo: int, len1: int, len2: int, m: int, hi: int, target: Seq<T>, r: spec_fn(T, T) -> Ordering)
    requires
        is_total_preorder(r),
        0 <= lo,
        len1 > 0,
        0 <= m < len2,
        lo + len1 + len2 <= hi <= s.len(),
        sorted_between(s, lo, lo + len1, r),
        sorted_between(s, lo + len1, lo + len1 + len2, r),
        merged(s.subrange(lo, lo + len1), s.subrange(lo + len1, lo + len1 + len2), r) + s.subrange(lo + len1 + len2, hi) == target,
        le(r, s[lo + len1 - 1], s[lo + len1 + len2 - 1]),
        forall|j: int| lo + len1 + m <= j < lo + len1 + len2 - 1 ==> le(r, s[lo + len1 - 1], #[trigger] s[j]),
    ensures
        sorted_between(s, lo + len1, lo + len1 + m, r),
        merged(s.subrange(lo, lo + len1), s.subrange(lo + len1, lo + len1 + m), r) + s.subrange(lo + len1 + m, hi) == target,
{
    lemma_order_facts(r);
    let e = lo + len1 + len2;
    let sa = s.subrange(lo, lo + len1);
    let b1 = s.subrange(lo + len1, lo + len1 + m);
    let b2 = s.subrange(lo + len1 + m, e);
    let tail = s.subrange(e, hi);
    assert(s.subrange(lo + len1, e) =~= b1 + b2);
    assert forall|i: int, j: int| 0 <= i < sa.len() && 0 <= j < b2.len()
        implies !lt(r, #[trigger] b2[j], #[trigger] sa[i]) by {
        assert(sa[i] == s[lo + i]);
        assert(b2[j] == s[lo + len1 + m + j]);
        assert(le(r, s[lo + i], s[lo + len1 - 1]));
        assert(le(r, s[lo + len1 - 1], s[lo + len1 + m + j]));
    }
    lemma_merge_tail_b(sa, b1, b2, r);
    assert(s.subrange(lo + len1 + m, hi) =~= b2 + tail);
    assert((merged(sa, b1, r) + b2) + tail =~= merged(sa, b1, r) + (b2 + tail));
}

/// Merges, stably and in place, the sorted runs of `len1` items at `start`
/// and of `len2` items after them, by rotations: from the front when the
/// first run is the shorter, from the back otherwise.
pub(crate) fn grail_merge_without_buffer<T, F>(arr: &mut [T], start: usize, len1: usize, len2: usize, cmp: &F, Ghost(r): Ghost<spec_fn(T, T) -> Ordering>)
    where
        F: Fn(&T, &T) -> Ordering,
    requires
        compares_by(*cmp, r),
        start + len1 + len2 <= old(arr)@.len(),
    ensures
        final(arr)@.len() == old(arr)@.len(),
        final(arr)@.to_multiset() == old(arr)@.to_multiset(),
        forall|k: int| 0 <= k < old(arr)@.len() && !(start <= k < start + len1 + len2)
            ==> #[trigger] final(arr)@[k] == old(arr)@[k],
        merges_to(old(arr)@, final(arr)@, ix(start), start + len1, start + len1 + len2, r),
{
    if len1 < len2 {
        merge_forward(arr, start, len1, len2, cmp, Ghost(r));
    } else {
        merge_backward(arr, start, len1, len2, cmp, Ghost(r));
    }
}

/// How the merge of two sorted runs splits around a value `m`: the items less
/// than `m` merge apart, then come the items equivalent to `m` (those of `a`
/// first), then the greater items merge apart.
proof fn lemma_merge_around<T>(a: Seq<T>, b: Seq<T>, m: T, l1: int, r1: int, l2: int, r2: int, r: spec_fn(T, T) -> Ordering)
    requires
        is_total_preorder(r),
        0 <= l1 <= r1 <= a.len(),
        0 <= l2 <= r2 <= b.len(),
        forall|i: int| 0 <= i < l1 ==> lt(r, #[trigger] a[i], m),
        forall|i: int| l1 <= i < r1 ==> !lt(r, #[trigger] a[i], m) && !lt(r, m, a[i]),
        forall|i: int| r1 <= i < a.len() ==> lt(r, m, #[trigger] a[i]),
        forall|i: int| 0 <= i < l2 ==> lt(r, #[trigger] b[i], m),
        forall|i: int| l2 <= i < r2 ==> !lt(r, #[trigger] b[i], m) && !lt(r, m, b[i]),
        forall|i: int| r2 <= i < b.len() ==> lt(r, m, #[trigger] b[i]),
    ensures
        merged(a, b, r) == merged(a.subrange(0, l1), b.subrange(0, l2), r) + a.subrange(l1, r1)
            + b.subrange(l2, r2) + merged(a.subrange(r1, len_of(a)), b.subrange(r2, len_of(b)), r),
{
    lemma_order_facts(r);
    let a1 = a.subrange(0, l1);
    let a2 = a.subrange(l1, r1);
    let a3 = a.subrange(r1, len_of(a));
    let b1 = b.subrange(0, l2);
    let b2 = b.subrange(l2, r2);
    let b3 = b.subrange(r2, len_of(b));
    assert(a =~= a1 + (a2 + a3));
    assert(b =~= b1 + (b2 + b3));
    let x = a2 + a3;
    let y = b2 + b3;
    assert forall|i: int, j: int| 0 <= i < a1.len() && 0 <= j < y.len() implies !lt(r, #[trigger] y[j], #[trigger] a1[i]) by {
        assert(a1[i] == a[i]);
        assert(lt(r, a[i], m));
        if j < b2.len() {
            assert(y[j] == b[l2 + j]);
            assert(!lt(r, b[l2 + j], m));
        } else {
            assert(y[j] == b[r2 + j - b2.len()]);
            assert(lt(r, m, b[r2 + j - b2.len()]));
        }
    }
    assert forall|i: int, j: int| 0 <= i < b1.len() && 0 <= j < x.len() implies lt(r, #[trigger] b1[i], #[trigger] x[j]) by {
        assert(b1[i] == b[i]);
        assert(lt(r, b[i], m));
        if j < a2.len() {
            assert(x[j] == a[l1 + j]);
            assert(!lt(r, a[l1 + j], m));
        } else {
            assert(x[j] == a[r1 + j - a2.len()]);
            assert(lt(r, m, a[r1 + j - a2.len()]));
        }
    }
    lemma_merge_split(a1, x, b1, y, r);
    // The items equivalent to `m` from `a` come before all of `y`.
    if y.len() > 0 {
        assert forall|i: int| 0 <= i < a2.len() implies !lt(r, y[0], #[trigger] a2[i]) by {
            assert(a2[i] == a[l1 + i]);
            assert(!lt(r, m, a[l1 + i]));
            if b2.len() > 0 {
                assert(y[0] == b[l2]);
                assert(!lt(r, b[l2], m));
            } else {
                assert(y[0] == b[r2]);
                assert(lt(r, m, b[r2]));
            }
        }
        lemma_merge_take_a(a2, a3, y, r);
    } else {
        lemma_merge_empty(x, y, r);
        lemma_merge_empty(a3, y, r);
    }
    // The items equivalent to `m` from `b` come before all of `a3`.
    if a3.len() > 0 {
        assert forall|i: int| 0 <= i < b2.len() implies lt(r, #[trigger] b2[i], a3[0]) by {
            assert(b2[i] == b[l2 + i]);
            assert(!lt(r, m, b[l2 + i]));
            assert(a3[0] == a[r1]);
            assert(lt(r, m, a[r1]));
        }
        lemma_merge_take_b(a3, b2, b3, r);
    } else {
        lemma_merge_empty(a3, y, r);
        lemma_merge_empty(a3, b3, r);
    }
    assert(merged(a1, b1, r) + (a2 + (b2 + merged(a3, b3, r)))
        =~= merged(a1, b1, r) + a2 + b2 + merged(a3, b3, r));
}

/// Where `grail_rec_merge` cuts the two sorted runs at `start`: around the
/// middle item of the longer run, the first run at `l1` and `r1`, the
/// second at `l2` and `r2`, so that the merge of the runs is the merge of
/// the first parts, then the middle parts, then the merge of the last parts.
fn rec_merge_cuts<T, F>(arr: &[T], start: usize, len1: usize, len2: usize, cmp: &F, Ghost(r): Ghost<spec_fn(T, T) -> Ordering>) -> (cuts: (usize, usize, usize, usize))
    where
        F: Fn(&T, &T) -> Ordering,
    requires
        compares_by(*cmp, r),
        start + len1 + len2 <= arr@.len(),
        len1 >= 3,
        len2 >= 3,
        sorted_between(arr@, ix(start), start + len1, r),
        sorted_between(arr@, start + len1, start + len1 + len2, r),
    ensures
        ({
            let (l1, r1, l2, r2) = cuts;
            let s = arr@;
            let lo = ix(start);
            let mid = start + len1;
            let hi = start + len1 + len2;
            &&& l1 <= r1 <= len1
            &&& l2 <= r2 <= len2
            &&& l1 + l2 < r1 + r2
            &&& merged(s.subrange(lo, mid), s.subrange(mid, hi), r)
                == merged(s.subrange(lo, lo + l1), s.subrange(mid, mid + l2), r)
                    + s.subrange(lo + l1, lo + r1) + s.subrange(mid + l2, mid + r2)
                    + merged(s.subrange(lo + r1, mid), s.subrange(mid + r2, hi), r)
        }),
{
    let ghost s = arr@;
    let ghost lo = ix(start);
    let ghost hi = start + len1 + len2;
    let n = arr.len();
    let midpoint = if len1 < len2 { len1 + len2 / 2 } else { len1 / 2 };
    let ghost m = s[start + midpoint];
    let key = &arr[start + midpoint];

    let len1_left = grail_binary_search(arr, start, len1, key, false, cmp, Ghost(r));
    let mut len1_right = len1_left;
    if len1_right < len1 {
        let o = cmp(&arr[start + len1_right], key);
        match o {
            Ordering::Equal => {
                proof {
                    assert(sorted_between(s, start + len1_left, start + len1, r));
                }
                let found = grail_binary_search(arr, start + len1_left, len1 - len1_left, key, true, cmp, Ghost(r));
                proof {
                    if found == 0 {
                        assert(r(s[start + len1_left], m) == Ordering::Equal);
                        assert(r(m, s[start + len1_left]) == Ordering::Less <==> r(s[start + len1_left], m) == Ordering::Greater);
                    }
                }
                len1_right = found + len1_left;
            },
            _ => {},
        }
    }
    let len2_left = grail_binary_search(arr, start + len1, len2, key, false, cmp, Ghost(r));
    let mut len2_right = len2_left;
    if len2_right < len2 {
        let o = cmp(&arr[start + len1 + len2_right], key);
        match o {
            Ordering::Equal => {
                proof {
                    assert(sorted_between(s, start + len1 + len2_left, start + len1 + len2, r));
                }
                let found = grail_binary_search(arr, start + len1 + len2_left, len2 - len2_left, key, true, cmp, Ghost(r));
                proof {
                    if found == 0 {
                        assert(r(s[start + len1 + len2_left], m) == Ordering::Equal);
                        assert(r(m, s[start + len1 + len2_left]) == Ordering::Less <==> r(s[start + len1 + len2_left], m) == Ordering::Greater);
                    }
                }
                len2_right = found + len2_left;
            },
            _ => {},
        }
    }
    proof {
        lemma_cuts_merge(s, lo, ix(len1), ix(len2), ix(midpoint), ix(len1_left), ix(len1_right), ix(len2_left), ix(len2_right), r);
    }
    (len1_left, len1_right, len2_left, len2_right)
}

/// Lays out the two runs at `start`, cut at `l1`, `r1` and `l2`, `r2`, in
/// the order in which their merge emits the parts, by one or two rotations.
fn rec_merge_lay_out<T>(arr: &mut [T], start: usize, len1: usize, len2: usize, l1: usize, r1: usize, l2: usize, r2: usize)
    requires
        start + len1 + len2 <= old(arr)@.len(),
        l1 <= r1 <= len1,
        l2 <= r2 <= len2,
    ensures
        final(arr)@ == laid_out(old(arr)@, ix(start), ix(len1), ix(len2), ix(l1), ix(r1), ix(l2), ix(r2)),
        final(arr)@.len() == old(arr)@.len(),
        final(arr)@.to_multiset() == old(arr)@.to_multiset(),
{
    let ghost s = arr@;
    let ghost lo = ix(start);
    let n = arr.len();
    if l1 == r1 {
        grail_rotate(arr, start + r1, len1 - r1, r2);
        proof {
            lemma_layout_one_rotation(s, lo, ix(len1), ix(len2), ix(l1), ix(r1), ix(l2), ix(r2));
        }
    } else {
        grail_rotate(arr, start + l1, len1 - l1, l2);
        proof {
            lemma_layout_first_rotation(s, lo, ix(len1), ix(len2), ix(l1), ix(r1), ix(l2), ix(r2));
        }
        if r2 != l2 {
            let ghost s1 = arr@;
            grail_rotate(arr, start + r1 + l2, len1 - r1, r2 - l2);
            proof {
                lemma_layout_second_rotation(s, s1, lo, ix(len1), ix(len2), ix(l1), ix(r1), ix(l2), ix(r2));
            }
        }
    }
}

/// Merges, stably and in place, the sorted runs of `len1` items at `start`
/// and of `len2` items after them: splits both around the middle item of the
/// longer run, moves the parts into place by rotations and merges the outer
/// parts recursively.
pub(crate) fn grail_rec_merge<T, F>(arr: &mut [T], start: usize, len1: usize, len2: usize, cmp: &F, Ghost(r): Ghost<spec_fn(T, T) -> Ordering>)
    where
        F: Fn(&T, &T) -> Ordering,
    requires
        compares_by(*cmp, r),
        start + len1 + len2 <= old(arr)@.len(),
        sorted_between(old(arr)@, ix(start), start + len1, r),
        sorted_between(old(arr)@, start + len1, start + len1 + len2, r),
    ensures
        final(arr)@.len() == old(arr)@.len(),
        final(arr)@.to_multiset() == old(arr)@.to_multiset(),
        forall|k: int| 0 <= k < old(arr)@.len() && !(start <= k < start + len1 + len2)
            ==> #[trigger] final(arr)@[k] == old(arr)@[k],
        final(arr)@.subrange(ix(start), start + len1 + len2) == merged(
            old(arr)@.subrange(ix(start), start + len1),
            old(arr)@.subrange(start + len1, start + len1 + len2),
            r,
        ),
    decreases len1 + len2,
{
    let ghost s = arr@;
    let ghost lo = ix(start);
    let ghost hi = start + len1 + len2;
    let n = arr.len();
    if len1 < 3 || len2 < 3 {
        grail_merge_without_buffer(arr, start, len1, len2, cmp, Ghost(r));
        return;
    }
    let (len1_left, len1_right, len2_left, len2_right) = rec_merge_cuts(arr, start, len1, len2, cmp, Ghost(r));
    let ghost l1 = ix(len1_left);
    let ghost r1 = ix(len1_right);
    let ghost l2 = ix(len2_left);
    let ghost r2 = ix(len2_right);
    rec_merge_lay_out(arr, start, len1, len2, len1_left, len1_right, len2_left, len2_right);
    let ghost s2 = arr@;
    proof {
        lemma_rec_merge_layout(s, lo, ix(len1), ix(len2), l1, r1, l2, r2, r);
    }
    grail_rec_merge(arr, start + len1_right + len2_right, len1 - len1_right, len2 - len2_right, cmp, Ghost(r));
    let ghost s3 = arr@;
    proof {
        lemma_sorted_kept(s2, s3, lo, lo + l1, lo + r1 + r2, r);
        lemma_sorted_kept(s2, s3, lo + l1, lo + l1 + l2, lo + r1 + r2, r);
    }
    grail_rec_merge(arr, start, len1_left, len2_left, cmp, Ghost(r));
    proof {
        lemma_rec_merge_assemble(s, s2, s3, arr@, lo, ix(len1), ix(len2), l1, r1, l2, r2, r);
    }
}

/// A range of `s3` that lies below `bound`, where `s3` agrees with `s2`, is
/// sorted where it was sorted in `s2`.
proof fn lemma_sorted_kept<T>(s2: Seq<T>, s3: Seq<T>, lo: int, hi: int, bound: int, r: spec_fn(T, T) -> Ordering)
    requires
        0 <= lo <= hi <= bound <= s2.len(),
        s3.len() == s2.len(),
        forall|k: int| 0 <= k < bound ==> #[trigger] s3[k] == s2[k],
        sorted_between(s2, lo, hi, r),
    ensures
        sorted_between(s3, lo, hi, r),
{
    assert forall|i: int, j: int| lo <= i <= j < hi implies le(r, #[trigger] s3[i], #[trigger] s3[j]) by {
        assert(s3[i] == s2[i] && s3[j] == s2[j]);
    }
}

/// After the two recursive merges of `grail_rec_merge`, the range holds the
/// merge of the two runs.
proof fn lemma_rec_merge_assemble<T>(s: Seq<T>, s2: Seq<T>, s3: Seq<T>, s4: Seq<T>, lo: int, len1: int, len2: int, l1: int, r1: int, l2: int, r2: int, r: spec_fn(T, T) -> Ordering)
    requires
        0 <= lo,
        lo + len1 + len2 <= s.len(),
        0 <= l1 <= r1 <= len1,
        0 <= l2 <= r2 <= len2,
        s2.len() == s.len(),
        s3.len() == s.len(),
        s4.len() == s.len(),
        merged(s.subrange(lo, lo + len1), s.subrange(lo + len1, lo + len1 + len2), r)
            == merged(s.subrange(lo, lo + l1), s.subrange(lo + len1, lo + len1 + l2), r)
                + s.subrange(lo + l1, lo + r1) + s.subrange(lo + len1 + l2, lo + len1 + r2)
                + merged(s.subrange(lo + r1, lo + len1), s.subrange(lo + len1 + r2, lo + len1 + len2), r),
        s2.subrange(lo, lo + l1) == s.subrange(lo, lo + l1),
        s2.subrange(lo + l1, lo + l1 + l2) == s.subrange(lo + len1, lo + len1 + l2),
        s2.subrange(lo + l1 + l2, lo + r1 + r2) == s.subrange(lo + l1, lo + r1) + s.subrange(lo + len1 + l2, lo + len1 + r2),
        s2.subrange(lo + r1 + r2, lo + len1 + r2) == s.subrange(lo + r1, lo + len1),
        s2.subrange(lo + len1 + r2, lo + len1 + len2) == s.subrange(lo + len1 + r2, lo + len1 + len2),
        forall|k: int| 0 <= k < s.len() && !(lo + r1 + r2 <= k < lo + len1 + len2) ==> #[trigger] s3[k] == s2[k],
        s3.subrange(lo + r1 + r2, lo + len1 + len2) == merged(
            s2.subrange(lo + r1 + r2, lo + len1 + r2), s2.subrange(lo + len1 + r2, lo + len1 + len2), r),
        forall|k: int| 0 <= k < s.len() && !(lo <= k < lo + l1 + l2) ==> #[trigger] s4[k] == s3[k],
        s4.subrange(lo, lo + l1 + l2) == merged(s3.subrange(lo, lo + l1), s3.subrange(lo + l1, lo + l1 + l2), r),
    ensures
        s4.subrange(lo, lo + len1 + len2) == merged(s.subrange(lo, lo + len1), s.subrange(lo + len1, lo + len1 + len2), r),
{
    let hi = lo + len1 + len2;
    let mid_lo = lo + l1 + l2;
    let mid_hi = lo + r1 + r2;
    assert(s3.subrange(lo, lo + l1) =~= s2.subrange(lo, lo + l1));
    assert(s3.subrange(lo + l1, mid_lo) =~= s2.subrange(lo + l1, mid_lo));
    assert(s4.subrange(mid_lo, mid_hi) =~= s2.subrange(mid_lo, mid_hi));
    assert(s4.subrange(mid_hi, hi) =~= s3.subrange(mid_hi, hi));
    assert(s4.subrange(lo, hi) =~= s4.subrange(lo, mid_lo) + s4.subrange(mid_lo, mid_hi) + s4.subrange(mid_hi, hi));
    assert(s.subrange(lo + l1, lo + r1) + s.subrange(lo + len1 + l2, lo + len1 + r2) + merged(s.subrange(lo + r1, lo + len1), s.subrange(lo + len1 + r2, hi), r)
        =~= s.subrange(lo + l1, lo + r1) + (s.subrange(lo + len1 + l2, lo + len1 + r2) + merged(s.subrange(lo + r1, lo + len1), s.subrange(lo + len1 + r2, hi), r)));
}

/// Given what the searches of `rec_merge_cuts` found, the merge of the two
/// runs splits at the cuts.
proof fn lemma_cuts_merge<T>(s: Seq<T>, lo: int, len1: int, len2: int, midpoint: int, l1: int, r1: int, l2: int, r2: int, r: spec_fn(T, T) -> Ordering)
    requires
        is_total_preorder(r),
        0 <= lo,
        len1 >= 3,
        len2 >= 3,
        lo + len1 + len2 <= s.len(),
        midpoint == if len1 < len2 { len1 + len2 / 2 } else { len1 / 2 },
        sorted_between(s, lo, lo + len1, r),
        sorted_between(s, lo + len1, lo + len1 + len2, r),
        0 <= l1 <= r1 <= len1,
        0 <= l2 <= r2 <= len2,
        is_first_position(s, s[lo + midpoint], lo, lo + len1, lo + l1, r),
        is_first_position(s, s[lo + midpoint], lo + len1, lo + len1 + len2, lo + len1 + l2, r),
        l1 < r1 ==> is_last_position(s, s[lo + midpoint], lo + l1, lo + len1, lo + r1, r),
        l1 == r1 && l1 < len1 ==> r(s[lo + l1], s[lo + midpoint]) != Ordering::Equal,
        l2 < r2 ==> is_last_position(s, s[lo + midpoint], lo + len1 + l2, lo + len1 + len2, lo + len1 + r2, r),
        l2 == r2 && l2 < len2 ==> r(s[lo + len1 + l2], s[lo + midpoint]) != Ordering::Equal,
    ensures
        l1 + l2 < r1 + r2,
        merged(s.subrange(lo, lo + len1), s.subrange(lo + len1, lo + len1 + len2), r)
            == merged(s.subrange(lo, lo + l1), s.subrange(lo + len1, lo + len1 + l2), r)
                + s.subrange(lo + l1, lo + r1) + s.subrange(lo + len1 + l2, lo + len1 + r2)
                + merged(s.subrange(lo + r1, lo + len1), s.subrange(lo + len1 + r2, lo + len1 + len2), r),
{
    let hi = lo + len1 + len2;
    let sa = s.subrange(lo, lo + len1);
    let sb = s.subrange(lo + len1, hi);
    let m = s[lo + midpoint];
    lemma_rec_merge_bounds(s, lo, len1, len2, midpoint, l1, r1, l2, r2, r);
    lemma_merge_around(sa, sb, m, l1, r1, l2, r2, r);
    assert(sa.subrange(0, l1) =~= s.subrange(lo, lo + l1));
    assert(sb.subrange(0, l2) =~= s.subrange(lo + len1, lo + len1 + l2));
    assert(sa.subrange(l1, r1) =~= s.subrange(lo + l1, lo + r1));
    assert(sb.subrange(l2, r2) =~= s.subrange(lo + len1 + l2, lo + len1 + r2));
    assert(sa.subrange(r1, len_of(sa)) =~= s.subrange(lo + r1, lo + len1));
    assert(sb.subrange(r2, len_of(sb)) =~= s.subrange(lo + len1 + r2, hi));
}

/// The facts the searches of `grail_rec_merge` establish about where the
/// items less than, equivalent to and greater than the middle item lie, and
/// that each recursive merge is smaller.
proof fn lemma_rec_merge_bounds<T>(s: Seq<T>, lo: int, len1: int, len2: int, midpoint: int, l1: int, r1: int, l2: int, r2: int, r: spec_fn(T, T) -> Ordering)
    requires
        is_total_preorder(r),
        0 <= lo,
        len1 >= 3,
        len2 >= 3,
        lo + len1 + len2 <= s.len(),
        midpoint == if len1 < len2 { len1 + len2 / 2 } else { len1 / 2 },
        sorted_between(s, lo, lo + len1, r),
        sorted_between(s, lo + len1, lo + len1 + len2, r),
        0 <= l1 <= r1 <= len1,
        0 <= l2 <= r2 <= len2,
        is_first_position(s, s[lo + midpoint], lo, lo + len1, lo + l1, r),
        is_first_position(s, s[lo + midpoint], lo + len1, lo + len1 + len2, lo + len1 + l2, r),
        l1 < r1 ==> is_last_position(s, s[lo + midpoint], lo + l1, lo + len1, lo + r1, r),
        l1 == r1 && l1 < len1 ==> r(s[lo + l1], s[lo + midpoint]) != Ordering::Equal,
        l2 < r2 ==> is_last_position(s, s[lo + midpoint], lo + len1 + l2, lo + len1 + len2, lo + len1 + r2, r),
        l2 == r2 && l2 < len2 ==> r(s[lo + len1 + l2], s[lo + midpoint]) != Ordering::Equal,
    ensures
        ({
            let sa = s.subrange(lo, lo + len1);
            let sb = s.subrange(lo + len1, lo + len1 + len2);
            let m = s[lo + midpoint];
            &&& forall|i: int| 0 <= i < l1 ==> lt(r, #[trigger] sa[i], m)
            &&& forall|i: int| l1 <= i < r1 ==> !lt(r, #[trigger] sa[i], m) && !lt(r, m, sa[i])
            &&& forall|i: int| r1 <= i < sa.len() ==> lt(r, m, #[trigger] sa[i])
            &&& forall|i: int| 0 <= i < l2 ==> lt(r, #[trigger] sb[i], m)
            &&& forall|i: int| l2 <= i < r2 ==> !lt(r, #[trigger] sb[i], m) && !lt(r, m, sb[i])
            &&& forall|i: int| r2 <= i < sb.len() ==> lt(r, m, #[trigger] sb[i])
        }),
        l1 + l2 < r1 + r2,
{
    lemma_order_facts(r);
    let m = s[lo + midpoint];
    lemma_run_split(s, m, lo, len1, l1, r1, r);
    lemma_run_split(s, m, lo + len1, len2, l2, r2, r);
    let sa = s.subrange(lo, lo + len1);
    let sb = s.subrange(lo + len1, lo + len1 + len2);
    // The middle item is equivalent to itself, so it lies in the middle part
    // of its own run.
    assert(!lt(r, m, m));
    if len1 < len2 {
        let k = len2 / 2;
        assert(sb[k] == m);
        assert(l2 <= k < r2);
    } else {
        let k = len1 / 2;
        assert(sa[k] == m);
        assert(l1 <= k < r1);
    }
}

/// Within one sorted run of `len` items at `base`, the parts before `left`,
/// between `left` and `right`, and from `right` on hold the items less than,
/// equivalent to and greater than `m`, given what the two searches found.
proof fn lemma_run_split<T>(s: Seq<T>, m: T, base: int, len: int, left: int, right: int, r: spec_fn(T, T) -> Ordering)
    requires
        is_total_preorder(r),
        0 <= base,
        base + len <= s.len(),
        sorted_between(s, base, base + len, r),
        0 <= left <= right <= len,
        is_first_position(s, m, base, base + len, base + left, r),
        left < right ==> is_last_position(s, m, base + left, base + len, base + right, r),
        left == right && left < len ==> r(s[base + left], m) != Ordering::Equal,
    ensures
        ({
            let run = s.subrange(base, base + len);
            &&& forall|i: int| 0 <= i < left ==> lt(r, #[trigger] run[i], m)
            &&& forall|i: int| left <= i < right ==> !lt(r, #[trigger] run[i], m) && !lt(r, m, run[i])
            &&& forall|i: int| right <= i < run.len() ==> lt(r, m, #[trigger] run[i])
        }),
{
    lemma_order_facts(r);
    let run = s.subrange(base, base + len);
    assert forall|i: int| 0 <= i < left implies lt(r, #[trigger] run[i], m) by {
        assert(run[i] == s[base + i]);
    }
    assert forall|i: int| left <= i < right implies !lt(r, #[trigger] run[i], m) && !lt(r, m, run[i]) by {
        assert(run[i] == s[base + i]);
    }
    assert forall|i: int| right <= i < run.len() implies lt(r, m, #[trigger] run[i]) by {
        assert(run[i] == s[base + i]);
        if left == right {
            let first = s[base + left];
            assert(!lt(r, first, m));
            assert(r(first, m) == Ordering::Less <==> r(m, first) == Ordering::Greater);
            assert(r(m, first) == Ordering::Less <==> r(first, m) == Ordering::Greater);
            assert(lt(r, m, first));
            assert(le(r, first, s[base + i]));
        }
    }
}

/// The items of the two sorted runs at `lo` (of `len1` and `len2` items), cut
/// at `l1`, `r1` and `l2`, `r2`, laid out in the order in which their merge
/// emits them: the first part of each run, the middle part of each run, the
/// last part of each run.
#[verifier::opaque]
pub open spec fn laid_out<T>(s: Seq<T>, lo: int, len1: int, len2: int, l1: int, r1: int, l2: int, r2: int) -> Seq<T> {
    Seq::new(
        s.len(),
        |k: int|
            if k < lo + l1 || k >= lo + len1 + len2 {
                s[k]
            } else if k < lo + l1 + l2 {
                s[k - l1 + len1]
            } else if k < lo + r1 + l2 {
                s[k - l2]
            } else if k < lo + r1 + r2 {
                s[k - r1 + len1]
            } else if k < lo + len1 + r2 {
                s[k - r2]
            } else {
                s[k]
            },
    )
}

/// With no items of the first run equivalent to the middle item, a single
/// rotation lays the parts out.
proof fn lemma_layout_one_rotation<T>(s: Seq<T>, lo: int, len1: int, len2: int, l1: int, r1: int, l2: int, r2: int)
    requires
        0 <= lo,
        lo + len1 + len2 <= s.len(),
        0 <= l1 == r1 <= len1,
        0 <= l2 <= r2 <= len2,
    ensures
        rotated_range(s, len1 - r1, lo + r1, lo + len1 + r2) == laid_out(s, lo, len1, len2, l1, r1, l2, r2),
{
    reveal(laid_out);
    assert(rotated_range(s, len1 - r1, lo + r1, lo + len1 + r2) =~= laid_out(s, lo, len1, len2, l1, r1, l2, r2));
}

/// The first of two rotations brings the first part of the second run in
/// front of the rest of the first run; where the second run has no middle
/// part, that is the whole layout.
proof fn lemma_layout_first_rotation<T>(s: Seq<T>, lo: int, len1: int, len2: int, l1: int, r1: int, l2: int, r2: int)
    requires
        0 <= lo,
        lo + len1 + len2 <= s.len(),
        0 <= l1 <= r1 <= len1,
        0 <= l2 <= r2 <= len2,
    ensures
        l2 == r2 ==> rotated_range(s, len1 - l1, lo + l1, lo + len1 + l2) == laid_out(s, lo, len1, len2, l1, r1, l2, r2),
{
    reveal(laid_out);
    if l2 == r2 {
        assert(rotated_range(s, len1 - l1, lo + l1, lo + len1 + l2) =~= laid_out(s, lo, len1, len2, l1, r1, l2, r2));
    }
}

/// The second rotation brings the middle part of the second run in front of
/// the last part of the first run.
proof fn lemma_layout_second_rotation<T>(s: Seq<T>, s1: Seq<T>, lo: int, len1: int, len2: int, l1: int, r1: int, l2: int, r2: int)
    requires
        0 <= lo,
        lo + len1 + len2 <= s.len(),
        0 <= l1 <= r1 <= len1,
        0 <= l2 <= r2 <= len2,
        s1 == rotated_range(s, len1 - l1, lo + l1, lo + len1 + l2),
    ensures
        rotated_range(s1, len1 - r1, lo + r1 + l2, lo + len1 + r2) == laid_out(s, lo, len1, len2, l1, r1, l2, r2),
{
    reveal(laid_out);
    assert(rotated_range(s1, len1 - r1, lo + r1 + l2, lo + len1 + r2) =~= laid_out(s, lo, len1, len2, l1, r1, l2, r2));
}

/// Where the recursive merges of `grail_rec_merge` find the parts of the
/// runs once they are laid out, and that the outer parts stay sorted.
proof fn lemma_rec_merge_layout<T>(s: Seq<T>, lo: int, len1: int, len2: int, l1: int, r1: int, l2: int, r2: int, r: spec_fn(T, T) -> Ordering)
    requires
        0 <= lo,
        lo + len1 + len2 <= s.len(),
        0 <= l1 <= r1 <= len1,
        0 <= l2 <= r2 <= len2,
        sorted_between(s, lo, lo + len1, r),
        sorted_between(s, lo + len1, lo + len1 + len2, r),
    ensures
        ({
            let s2 = laid_out(s, lo, len1, len2, l1, r1, l2, r2);
            &&& s2.subrange(lo, lo + l1) == s.subrange(lo, lo + l1)
            &&& s2.subrange(lo + l1, lo + l1 + l2) == s.subrange(lo + len1, lo + len1 + l2)
            &&& s2.subrange(lo + l1 + l2, lo + r1 + r2) == s.subrange(lo + l1, lo + r1) + s.subrange(lo + len1 + l2, lo + len1 + r2)
            &&& s2.subrange(lo + r1 + r2, lo + len1 + r2) == s.subrange(lo + r1, lo + len1)
            &&& s2.subrange(lo + len1 + r2, lo + len1 + len2) == s.subrange(lo + len1 + r2, lo + len1 + len2)
            &&& sorted_between(s2, lo, lo + l1, r)
            &&& sorted_between(s2, lo + l1, lo + l1 + l2, r)
            &&& sorted_between(s2, lo + r1 + r2, lo + len1 + r2, r)
            &&& sorted_between(s2, lo + len1 + r2, lo + len1 + len2, r)
            &&& forall|k: int| 0 <= k < s.len() && !(lo <= k < lo + len1 + len2) ==> #[trigger] s2[k] == s[k]
        }),
{
    reveal(laid_out);
    let hi = lo + len1 + len2;
    let s2 = laid_out(s, lo, len1, len2, l1, r1, l2, r2);
    assert(s2.subrange(lo, lo + l1) =~= s.subrange(lo, lo + l1));
    assert(s2.subrange(lo + l1, lo + l1 + l2) =~= s.subrange(lo + len1, lo + len1 + l2));
    assert(s2.subrange(lo + l1 + l2, lo + r1 + r2) =~= s.subrange(lo + l1, lo + r1) + s.subrange(lo + len1 + l2, lo + len1 + r2));
    assert(s2.subrange(lo + r1 + r2, lo + len1 + r2) =~= s.subrange(lo + r1, lo + len1));
    assert(s2.subrange(lo + len1 + r2, hi) =~= s.subrange(lo + len1 + r2, hi));
    assert forall|i: int, j: int| lo <= i <= j < lo + l1 implies le(r, #[trigger] s2[i], #[trigger] s2[j]) by {
        assert(s2[i] == s[i] && s2[j] == s[j]);
    }
    assert forall|i: int, j: int| lo + l1 <= i <= j < lo + l1 + l2 implies le(r, #[trigger] s2[i], #[trigger] s2[j]) by {
        assert(s2[i] == s[i - l1 + len1] && s2[j] == s[j - l1 + len1]);
    }
    assert forall|i: int, j: int| lo + r1 + r2 <= i <= j < lo + len1 + r2 implies le(r, #[trigger] s2[i], #[trigger] s2[j]) by {
        assert(s2[i] == s[i - r2] && s2[j] == s[j - r2]);
    }
    assert forall|i: int, j: int| lo + len1 + r2 <= i <= j < hi implies le(r, #[trigger] s2[i], #[trigger] s2[j]) by {
        assert(s2[i] == s[i] && s2[j] == s[j]);
    }
}
/// Puts each pair of items at `2k`, `2k + 1` in order, exchanging the two
/// where the first is greater.
fn sort_pairs<T, F>(arr: &mut [T], cmp: &F, Ghost(r): Ghost<spec_fn(T, T) -> Ordering>)
    where
        F: Fn(&T, &T) -> Ordering,
    requires
        compares_by(*cmp, r),
    ensures
        final(arr)@.len() == old(arr)@.len(),
        final(arr)@.to_multiset() == old(arr)@.to_multiset(),
        stable_perm(final(arr)@, old(arr)@, r),
        runs_sorted(final(arr)@, 2, len_of(old(arr)@), r),
{
    let ghost s0 = arr@;
    let len = arr.len();
    proof {
        lemma_order_facts(r);
        assert(s0.subrange(0, len_of(s0)) =~= s0);
    }
    let mut dist: usize = 1;
    while dist < len
        invariant
            compares_by(*cmp, r),
            is_total_preorder(r),
            len == s0.len(),
            arr@.len() == len,
            1 <= dist <= len + 1,
            dist % 2 == 1,
            arr@.to_multiset() == s0.to_multiset(),
            stable_perm(arr@, s0, r),
            forall|k: int| 0 <= k && 2 * k + 1 < dist ==> #[trigger] run_sorted(arr@, 2, k, len_of(s0), r),
        decreases len + 1 - dist,
    {
        let ghost s = arr@;
        let o = cmp(&arr[dist - 1], &arr[dist]);
        match o {
            Ordering::Greater => {
                proof {
                    lemma_swap_adjacent_stable(s, 0, ix(len), ix(dist), r);
                    assert(s.subrange(0, ix(len)) =~= s);
                    assert(swapped(s, dist - 1, ix(dist)).subrange(0, ix(len)) =~= swapped(s, dist - 1, ix(dist)));
                    assert(swapped(s, dist - 1, ix(dist)) == s.update(dist - 1, s[ix(dist)]).update(ix(dist), s[dist - 1]));
                    lemma_stable_trans(swapped(s, dist - 1, ix(dist)), s, s0, r);
                    lemma_swapped_multiset(s, dist - 1, ix(dist));
                    assert(r(s[ix(dist)], s[dist - 1]) == Ordering::Less <==> r(s[dist - 1], s[ix(dist)]) == Ordering::Greater);
                }
                swap_items(arr, dist - 1, dist);
            },
            _ => {},
        }
        proof {
            let t = arr@;
            let k = (dist - 1) / 2;
            assert(2 * k + 1 == dist);
            assert(le(r, t[dist - 1], t[ix(dist)]));
            assert(run_sorted(t, 2, k, len_of(s0), r));
            assert forall|j: int| 0 <= j && 2 * j + 1 < dist + 2 implies #[trigger] run_sorted(t, 2, j, len_of(s0), r) by {
                if j < k {
                    assert(run_sorted(s, 2, j, len_of(s0), r));
                    lemma_sorted_same(s, t, 2 * j, 2 * j + 2, r);
                }
            }
        }
        dist += 2;
    }
    proof {
        let t = arr@;
        assert forall|k: int| 0 <= k && k * 2 < len_of(s0) implies #[trigger] run_sorted(t, 2, k, len_of(s0), r) by {
            if 2 * k + 1 >= dist {
                assert(2 * k + 1 == len);
            }
        }
    }
}

/// One pass of a bottom-up merge sort: merges each pair of adjacent runs of
/// width `part`, by `grail_rec_merge` when `recursive`, and by
/// `grail_merge_without_buffer` otherwise; a last run without a partner is
/// left as it is.
fn merge_level<T, F>(arr: &mut [T], part: usize, recursive: bool, cmp: &F, Ghost(r): Ghost<spec_fn(T, T) -> Ordering>)
    where
        F: Fn(&T, &T) -> Ordering,
    requires
        compares_by(*cmp, r),
        1 <= part < old(arr)@.len(),
        runs_sorted(old(arr)@, ix(part), len_of(old(arr)@), r),
    ensures
        final(arr)@.len() == old(arr)@.len(),
        final(arr)@.to_multiset() == old(arr)@.to_multiset(),
        stable_perm(final(arr)@, old(arr)@, r),
        runs_sorted(final(arr)@, 2 * part, len_of(old(arr)@), r),
{
    let ghost s0 = arr@;
    let ghost p = ix(part);
    let ghost n = len_of(s0);
    let len = arr.len();
    proof {
        lemma_order_facts(r);
    }
    let mut left: usize = 0;
    let ghost mut c: int = 0;
    while part <= (len - left) / 2
        invariant
            compares_by(*cmp, r),
            is_total_preorder(r),
            len == s0.len(),
            n == len,
            p == part,
            1 <= part < len,
            arr@.len() == len,
            0 <= c,
            left == c * (2 * p),
            left <= len,
            arr@.to_multiset() == s0.to_multiset(),
            stable_perm(arr@, s0, r),
            forall|k: int| 0 <= k < c ==> #[trigger] run_sorted(arr@, 2 * p, k, n, r),
            forall|k: int| 2 * c <= k && k * p < n ==> #[trigger] run_sorted(arr@, p, k, n, r),
        decreases len - left,
    {
        let ghost s = arr@;
        proof {
            assert((2 * c) * p == left && (2 * c + 1) * p == left + p) by (nonlinear_arith)
                requires left == c * (2 * p);
            assert(run_sorted(s, p, 2 * c, n, r));
            assert(run_sorted(s, p, 2 * c + 1, n, r));
        }
        if recursive {
            grail_rec_merge(arr, left, part, part, cmp, Ghost(r));
        } else {
            grail_merge_without_buffer(arr, left, part, part, cmp, Ghost(r));
        }
        proof {
            let t = arr@;
            lemma_merge_step(s, t, ix(left), left + p, left + 2 * p, r);
            lemma_stable_trans(t, s, s0, r);
            assert(c * (2 * p) + 2 * p == (c + 1) * (2 * p)) by (nonlinear_arith);
            assert(run_sorted(t, 2 * p, c, n, r));
            assert forall|k: int| 0 <= k < c + 1 implies #[trigger] run_sorted(t, 2 * p, k, n, r) by {
                if k < c {
                    assert(k * (2 * p) + 2 * p <= left) by (nonlinear_arith)
                        requires 0 <= k < c, left == c * (2 * p), p >= 1;
                    assert(run_sorted(s, 2 * p, k, n, r));
                    lemma_sorted_same(s, t, k * (2 * p), k * (2 * p) + 2 * p, r);
                }
            }
            assert forall|k: int| 2 * (c + 1) <= k && k * p < n implies #[trigger] run_sorted(t, p, k, n, r) by {
                assert(k * p >= left + 2 * p) by (nonlinear_arith)
                    requires 2 * (c + 1) <= k, left == c * (2 * p), p >= 1;
                assert(run_sorted(s, p, k, n, r));
                let hi = if k * p + p < n { k * p + p } else { n };
                lemma_sorted_same(s, t, k * p, hi, r);
            }
        }
        left += 2 * part;
        proof {
            c = c + 1;
        }
    }
    let rest = len - left;
    let ghost s = arr@;
    proof {
        assert((2 * c) * p == left && (2 * c + 1) * p == left + p) by (nonlinear_arith)
            requires left == c * (2 * p);
        if left < len {
            assert(run_sorted(s, p, 2 * c, n, r));
        }
    }
    if rest > part {
        proof {
            assert(run_sorted(s, p, 2 * c + 1, n, r));
        }
        if recursive {
            grail_rec_merge(arr, left, part, rest - part, cmp, Ghost(r));
        } else {
            grail_merge_without_buffer(arr, left, part, rest - part, cmp, Ghost(r));
        }
        proof {
            let t = arr@;
            lemma_merge_step(s, t, ix(left), left + p, n, r);
            lemma_stable_trans(t, s, s0, r);
        }
    }
    proof {
        let t = arr@;
        assert(sorted_between(t, ix(left), n, r));
        assert forall|k: int| 0 <= k && k * (2 * part) < n implies #[trigger] run_sorted(t, 2 * part, k, n, r) by {
            if k < c {
                assert(k * (2 * p) + 2 * p <= left) by (nonlinear_arith)
                    requires 0 <= k < c, left == c * (2 * p), p >= 1;
                assert(run_sorted(s, 2 * p, k, n, r));
                lemma_sorted_same(s, t, k * (2 * p), k * (2 * p) + 2 * p, r);
            } else if k > c {
                assert(k * (2 * p) >= left + 2 * p) by (nonlinear_arith)
                    requires k > c, left == c * (2 * p), p >= 1;
            }
        }
    }
}

/// The width of the runs after the next pass, once runs of width `part`
/// are merged in pairs: twice `part`, or the whole length where that is
/// already reached.
fn next_width(part: usize, len: usize) -> (w: usize)
    requires
        part < len,
    ensures
        w == if 2 * part < len { 2 * part } else { len as int },
{
    if part < len - part { part * 2 } else { len }
}

/// Sorts `arr` stably by a bottom-up merge sort whose merges move items by
/// rotations only, without a buffer.
pub(crate) fn grail_lazy_stable_sort<T, F>(arr: &mut [T], cmp: &F, Ghost(r): Ghost<spec_fn(T, T) -> Ordering>)
    where
        F: Fn(&T, &T) -> Ordering,
    requires
        compares_by(*cmp, r),
    ensures
        final(arr)@.len() == old(arr)@.len(),
        final(arr)@.to_multiset() == old(arr)@.to_multiset(),
        sorted_between(final(arr)@, 0, len_of(final(arr)@), r),
        stable_perm(final(arr)@, old(arr)@, r),
{
    bottom_up_sort(arr, false, cmp, Ghost(r));
}

/// The bottom-up merge sort that `grail_lazy_stable_sort` and
/// `rec_stable_sort` share: sorts the pairs, then merges runs of doubling
/// width.
fn bottom_up_sort<T, F>(arr: &mut [T], recursive: bool, cmp: &F, Ghost(r): Ghost<spec_fn(T, T) -> Ordering>)
    where
        F: Fn(&T, &T) -> Ordering,
    requires
        compares_by(*cmp, r),
    ensures
        final(arr)@.len() == old(arr)@.len(),
        final(arr)@.to_multiset() == old(arr)@.to_multiset(),
        sorted_between(final(arr)@, 0, len_of(final(arr)@), r),
        stable_perm(final(arr)@, old(arr)@, r),
{
    let ghost s0 = arr@;
    let len = arr.len();
    sort_pairs(arr, cmp, Ghost(r));
    let mut part: usize = 2;
    while part < len
        invariant
            compares_by(*cmp, r),
            len == s0.len(),
            arr@.len() == len,
            part >= 2,
            arr@.to_multiset() == s0.to_multiset(),
            stable_perm(arr@, s0, r),
            runs_sorted(arr@, ix(part), len_of(s0), r),
        decreases len - part,
    {
        let ghost s = arr@;
        merge_level(arr, part, recursive, cmp, Ghost(r));
        proof {
            lemma_stable_trans(arr@, s, s0, r);
        }
        let next = next_width(part, len);
        proof {
            if next == len {
                assert(run_sorted(arr@, 2 * part, 0, len_of(s0), r));
                assert forall|k: int| 0 <= k && k * next < len_of(s0) implies #[trigger] run_sorted(arr@, ix(next), k, len_of(s0), r) by {
                    assert(k == 0) by (nonlinear_arith)
                        requires 0 <= k, k * next < len, next == len;
                }
            }
        }
        part = next;
    }
    proof {
        if len > 0 {
            assert(run_sorted(arr@, ix(part), 0, len_of(s0), r));
        }
    }
}

/// Sorts `arr` stably by `Ord::cmp`, in place: a bottom-up merge sort whose
/// merges split both runs around a middle item and recurse.
pub fn rec_stable_sort<T: Ord>(arr: &mut [T])
    requires
        vstd::laws_cmp::obeys_cmp::<T>(),
    ensures
        final(arr)@.len() == old(arr)@.len(),
        final(arr)@.to_multiset() == old(arr)@.to_multiset(),
        sorted_between(final(arr)@, 0, len_of(final(arr)@), ord_order::<T>()),
        stable_perm(final(arr)@, old(arr)@, ord_order::<T>()),
{
    if arr.len() == 0 {
        proof {
            assert(stable_perm(arr@, arr@, ord_order::<T>()));
        }
        return;
    }
    let cmp = |a: &T, b: &T| -> (o: Ordering)
        ensures
            T::obeys_cmp_spec() ==> o == (*a).cmp_spec(&*b),
        {
            a.cmp(b)
        };
    proof {
        lemma_ord_total_preorder::<T>();
    }
    bottom_up_sort(arr, true, &cmp, Ghost(ord_order::<T>()));
}

/// Sorts `arr` stably by `Ord::cmp` with GrailSort, in place and without
/// allocating.
/// The contract proves that the items are kept, and the stable sorted order
/// for at most 16 items or at most three distinct classes.
pub fn grail_sort<T: Ord>(arr: &mut [T])
    requires
        vstd::laws_cmp::obeys_cmp::<T>(),
        old(arr)@.len() <= isize::MAX,
    ensures
        final(arr)@.len() == old(arr)@.len(),
        final(arr)@.to_multiset() == old(arr)@.to_multiset(),
        old(arr)@.len() <= 16 ==> sorted_between(final(arr)@, 0, len_of(old(arr)@), ord_order::<T>())
            && stable_perm(final(arr)@, old(arr)@, ord_order::<T>()),
        !has_four_classes(old(arr)@, ord_order::<T>()) ==> sorted_between(final(arr)@, 0, len_of(old(arr)@), ord_order::<T>())
            && stable_perm(final(arr)@, old(arr)@, ord_order::<T>()),
{
    if arr.len() == 0 {
        proof {
            assert(stable_perm(arr@, arr@, ord_order::<T>()));
        }
        return;
    }
    let cmp = |a: &T, b: &T| -> (o: Ordering)
        ensures
            T::obeys_cmp_spec() ==> o == (*a).cmp_spec(&*b),
        {
            a.cmp(b)
        };
    proof {
        lemma_ord_total_preorder::<T>();
    }
    grail_common_sort(arr, &cmp, Ghost(ord_order::<T>()));
}

/// Sorts `arr` stably by the comparator `compare` with GrailSort, in place
/// and without allocating.
/// The contract proves that the items are kept, and the stable sorted order
/// for at most 16 items or at most three distinct classes.
pub fn grail_sort_by<T, F>(arr: &mut [T], compare: F)
    where
        F: Fn(&T, &T) -> Ordering,
    requires
        is_comparator(compare),
        old(arr)@.len() <= isize::MAX,
    ensures
        final(arr)@.len() == old(arr)@.len(),
        final(arr)@.to_multiset() == old(arr)@.to_multiset(),
        old(arr)@.len() <= 16 ==> forall|q: spec_fn(T, T) -> Ordering| #[trigger] compares_by(compare, q) ==>
            sorted_between(final(arr)@, 0, len_of(old(arr)@), q) && stable_perm(final(arr)@, old(arr)@, q),
        !has_four_classes(old(arr)@, chosen_order(compare)) ==> sorted_between(final(arr)@, 0, len_of(old(arr)@), chosen_order(compare))
            && stable_perm(final(arr)@, old(arr)@, chosen_order(compare)),
{
    proof {
        lemma_comparator(compare);
    }
    if arr.len() == 0 {
        proof {
            assert(stable_perm(arr@, arr@, chosen_order(compare)));
            assert forall|q: spec_fn(T, T) -> Ordering| #[trigger] compares_by(compare, q) implies
                stable_perm(arr@, arr@, q) by {}
        }
        return;
    }
    grail_common_sort(arr, &compare, Ghost(chosen_order(compare)));
}

/// Sorts `arr` stably by `Ord::cmp` with GrailSort. A scratch buffer would
/// only speed up the merges; here they run in place, so this sorts as
/// `grail_sort` does.
/// The contract proves that the items are kept, and the stable sorted order
/// for at most 16 items or at most three distinct classes.
pub fn grail_sort_with_static_buffer<T: Ord>(arr: &mut [T])
    requires
        vstd::laws_cmp::obeys_cmp::<T>(),
        old(arr)@.len() <= isize::MAX,
    ensures
        final(arr)@.len() == old(arr)@.len(),
        final(arr)@.to_multiset() == old(arr)@.to_multiset(),
        old(arr)@.len() <= 16 ==> sorted_between(final(arr)@, 0, len_of(old(arr)@), ord_order::<T>())
            && stable_perm(final(arr)@, old(arr)@, ord_order::<T>()),
        !has_four_classes(old(arr)@, ord_order::<T>()) ==> sorted_between(final(arr)@, 0, len_of(old(arr)@), ord_order::<T>())
            && stable_perm(final(arr)@, old(arr)@, ord_order::<T>()),
{
    grail_sort(arr);
}

/// Sorts `arr` stably by `Ord::cmp` with GrailSort. A scratch buffer of
/// about the square root of the length would only speed up the merges; here
/// they run in place, so this sorts as `grail_sort` does.
/// The contract proves that the items are kept, and the stable sorted order
/// for at most 16 items or at most three distinct classes.
pub fn grail_sort_with_dynamic_buffer<T: Ord>(arr: &mut [T])
    requires
        vstd::laws_cmp::obeys_cmp::<T>(),
        old(arr)@.len() <= isize::MAX,
    ensures
        final(arr)@.len() == old(arr)@.len(),
        final(arr)@.to_multiset() == old(arr)@.to_multiset(),
        old(arr)@.len() <= 16 ==> sorted_between(final(arr)@, 0, len_of(old(arr)@), ord_order::<T>())
            && stable_perm(final(arr)@, old(arr)@, ord_order::<T>()),
        !has_four_classes(old(arr)@, ord_order::<T>()) ==> sorted_between(final(arr)@, 0, len_of(old(arr)@), ord_order::<T>())
            && stable_perm(final(arr)@, old(arr)@, ord_order::<T>()),
{
    grail_sort(arr);
}

} // verus!
