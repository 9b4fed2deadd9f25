//! WikiSort: a stable, in-place merge sort that needs no allocation.
use vstd::prelude::*;
use core::cmp::Ordering;
use core::ops::Range;
use crate::order::{le, lt, is_total_preorder, is_comparator, valid_comparator, compares_by, chosen_order, lemma_comparator, lemma_order_facts};
use crate::ops::{ix, len_of, int_of, swap_items, swapped, lemma_swapped_multiset, range_len, rotate, block_swap};
use crate::search::{sorted_between, is_first_position, is_last_position, binary_first, binary_last, find_first_forward, find_last_forward, find_first_backward, find_last_backward, lemma_first_position, lemma_last_position};
use crate::iter::{WikiIterator, integer_sqrt};
use vstd::arithmetic::power2::lemma2_to64;
use vstd::bits::lemma_usize_shl_is_mul;
use crate::merge::{merged, lemma_merge_take_a, lemma_merge_take_b, lemma_merge_empty, lemma_merge_tail_a, lemma_merge_tail_b};
use crate::stability::{class_in, stable_perm, lemma_swap_adjacent_stable, lemma_stable_trans, lemma_equal_trans};
use crate::grail_blocks::strictly_sorted_between;
use crate::networks::{exchanges, tag, tagged, rank_at, lemma_net_step, lemma_rank_order, lemma_network_result, network_4, network_5, network_6, network_7, network_8, lemma_network_4, lemma_network_5, lemma_network_6, lemma_network_7, lemma_network_8};

verus! {

/// Sorts the items of `range` stably by insertion.
pub(crate) fn insertion_sort<T, F>(array: &mut [T], range: Range<usize>, cmp: &F)
    where
        F: Fn(&T, &T) -> Ordering,
    requires
        valid_comparator(*cmp),
        range.start < usize::MAX,
        range.start >= range.end || range.end <= old(array)@.len(),
    ensures
        final(array)@.len() == old(array)@.len(),
        final(array)@.to_multiset() == old(array)@.to_multiset(),
        forall|k: int| 0 <= k < old(array)@.len() && !(range.start <= k < range.end)
            ==> #[trigger] final(array)@[k] == old(array)@[k],
        range.start < range.end ==> {
            &&& sorted_between(final(array)@, ix(range.start), ix(range.end), chosen_order(*cmp))
            &&& stable_perm(final(array)@.subrange(ix(range.start), ix(range.end)),
                old(array)@.subrange(ix(range.start), ix(range.end)), chosen_order(*cmp))
        },
{
    let ghost r = chosen_order(*cmp);
    let ghost s0 = array@;
    let ghost lo = ix(range.start);
    let ghost hi = ix(range.end);
    proof {
        lemma_order_facts(r);
    }
    let mut i = range.start + 1;
    while i < range.end
        invariant
            valid_comparator(*cmp),
            r == chosen_order(*cmp),
            is_total_preorder(r),
            lo == range.start,
            hi == range.end,
            lo < i,
            i < hi ==> hi <= s0.len(),
            lo < hi ==> i <= hi,
            array@.len() == s0.len(),
            array@.to_multiset() == s0.to_multiset(),
            forall|k: int| 0 <= k < s0.len() && !(lo <= k < hi) ==> #[trigger] array@[k] == s0[k],
            lo < hi ==> sorted_between(array@, lo, ix(i), r),
            lo < hi ==> stable_perm(array@.subrange(lo, hi), s0.subrange(lo, hi), r),
        decreases range.end - i,
    {
        let mut j = i;
        loop
            invariant
                valid_comparator(*cmp),
                r == chosen_order(*cmp),
                is_total_preorder(r),
                lo == range.start,
                hi == range.end,
                lo <= j <= i < hi <= s0.len(),
                array@.len() == s0.len(),
                array@.to_multiset() == s0.to_multiset(),
                forall|k: int| 0 <= k < s0.len() && !(lo <= k < hi) ==> #[trigger] array@[k] == s0[k],
                forall|a: int, b: int| lo <= a <= b <= i && a != j && b != j
                    ==> le(r, #[trigger] array@[a], #[trigger] array@[b]),
                forall|k: int| j < k <= i ==> lt(r, array@[ix(j)], #[trigger] array@[k]),
                stable_perm(array@.subrange(lo, hi), s0.subrange(lo, hi), r),
            ensures
                lo <= j <= i < hi <= s0.len(),
                array@.len() == s0.len(),
                array@.to_multiset() == s0.to_multiset(),
                forall|k: int| 0 <= k < s0.len() && !(lo <= k < hi) ==> #[trigger] array@[k] == s0[k],
                forall|a: int, b: int| lo <= a <= b <= i && a != j && b != j
                    ==> le(r, #[trigger] array@[a], #[trigger] array@[b]),
                forall|k: int| j < k <= i ==> lt(r, array@[ix(j)], #[trigger] array@[k]),
                j > lo ==> !lt(r, array@[ix(j)], array@[j - 1]),
                stable_perm(array@.subrange(lo, hi), s0.subrange(lo, hi), r),
            decreases j,
        {
            if j <= range.start {
                break;
            }
            let o = cmp(&array[j], &array[j - 1]);
            let is_less = match o {
                Ordering::Less => true,
                _ => false,
            };
            if !is_less {
                break;
            }
            let ghost before = array@;
            proof {
                lemma_swapped_multiset(before, ix(j), j - 1);
                assert(r(before[j - 1], before[ix(j)]) == Ordering::Greater);
                lemma_swap_adjacent_stable(before, lo, hi, ix(j), r);
                assert(swapped(before, ix(j), j - 1) =~= before.update(j - 1, before[ix(j)]).update(ix(j), before[j - 1]));
            }
            swap_items(array, j, j - 1);
            j -= 1;
            proof {
                assert forall|a: int, b: int| lo <= a <= b <= i && a != j && b != j
                    implies le(r, #[trigger] array@[a], #[trigger] array@[b]) by {
                    let a0: int = if a == j + 1 { ix(j) } else { a };
                    let b0: int = if b == j + 1 { ix(j) } else { b };
                    assert(array@[a] == before[a0]);
                    assert(array@[b] == before[b0]);
                    if a0 <= b0 {
                        assert(le(r, before[a0], before[b0]));
                    }
                }
                assert forall|k: int| j < k <= i implies lt(r, array@[ix(j)], #[trigger] array@[k]) by {
                    if k == j + 1 {
                    } else {
                        assert(lt(r, before[j + 1], before[k]));
                    }
                }
            }
        }
        proof {
            assert forall|a: int, b: int| lo <= a <= b < i + 1
                implies le(r, #[trigger] array@[a], #[trigger] array@[b]) by {
                if a == j && b != j {
                    assert(lt(r, array@[ix(j)], array@[b]));
                } else if b == j && a != j {
                    assert(le(r, array@[a], array@[j - 1]));
                    assert(le(r, array@[j - 1], array@[ix(j)]));
                }
            }
        }
        i += 1;
    }
}


/// Merges the adjacent sorted ranges `a` and `b` stably, in place, by
/// rotating runs of `b` into `a`.
pub(crate) fn merge_in_place<T, F>(array: &mut [T], a: Range<usize>, b: Range<usize>, cmp: &F)
    where
        F: Fn(&T, &T) -> Ordering,
    requires
        valid_comparator(*cmp),
        a.start <= a.end,
        a.end == b.start,
        b.start <= b.end,
        b.end <= old(array)@.len(),
    ensures
        final(array)@.len() == old(array)@.len(),
        final(array)@.to_multiset() == old(array)@.to_multiset(),
        forall|k: int| 0 <= k < old(array)@.len() && !(a.start <= k < b.end)
            ==> #[trigger] final(array)@[k] == old(array)@[k],
        sorted_between(old(array)@, ix(a.start), ix(a.end), chosen_order(*cmp))
            && sorted_between(old(array)@, ix(b.start), ix(b.end), chosen_order(*cmp))
            ==> final(array)@.subrange(ix(a.start), ix(b.end)) == merged(
                old(array)@.subrange(ix(a.start), ix(a.end)),
                old(array)@.subrange(ix(b.start), ix(b.end)),
                chosen_order(*cmp),
            ),
{
    let ghost r = chosen_order(*cmp);
    let ghost s0 = array@;
    let ghost lo = ix(a.start);
    let ghost hi = ix(b.end);
    let ghost srt = sorted_between(s0, ix(a.start), ix(a.end), r) && sorted_between(s0, ix(b.start), ix(b.end), r);
    let ghost target = merged(s0.subrange(ix(a.start), ix(a.end)), s0.subrange(ix(b.start), ix(b.end)), r);
    proof {
        lemma_order_facts(r);
    }
    if range_len(&a) == 0 || range_len(&b) == 0 {
        proof {
            lemma_merge_empty(s0.subrange(ix(a.start), ix(a.end)), s0.subrange(ix(b.start), ix(b.end)), r);
            assert(s0.subrange(lo, hi) =~= s0.subrange(ix(a.start), ix(a.end)) + s0.subrange(ix(b.start), ix(b.end)));
        }
        return;
    }
    let mut a = a;
    let mut b = b;
    loop
        invariant_except_break
            lo <= a.start < a.end,
            a.end == b.start,
            b.start < b.end,
            b.end == hi,
            srt ==> {
                &&& sorted_between(array@, ix(a.start), ix(a.end), r)
                &&& sorted_between(array@, ix(b.start), hi, r)
                &&& array@.subrange(lo, ix(a.start)) + merged(
                    array@.subrange(ix(a.start), ix(a.end)),
                    array@.subrange(ix(b.start), hi),
                    r,
                ) == target
            },
        invariant
            valid_comparator(*cmp),
            r == chosen_order(*cmp),
            is_total_preorder(r),
            0 <= lo,
            hi <= s0.len(),
            array@.len() == s0.len(),
            array@.to_multiset() == s0.to_multiset(),
            forall|k: int| 0 <= k < s0.len() && !(lo <= k < hi) ==> #[trigger] array@[k] == s0[k],
        ensures
            array@.len() == s0.len(),
            array@.to_multiset() == s0.to_multiset(),
            forall|k: int| 0 <= k < s0.len() && !(lo <= k < hi) ==> #[trigger] array@[k] == s0[k],
            srt ==> array@.subrange(lo, hi) == target,
        decreases a.end - a.start,
    {
        let ghost s = array@;
        let ghost pa = s.subrange(lo, ix(a.start));
        let ghost sa = s.subrange(ix(a.start), ix(a.end));
        let mid = binary_first(array, &array[a.start], b.start..b.end, cmp);
        let ghost b1 = s.subrange(ix(b.start), ix(mid));
        let ghost b2 = s.subrange(ix(mid), hi);
        let amount = mid - a.end;
        let alen = a.end - a.start;
        rotate(array, alen, a.start..mid);
        let ghost s1 = array@;
        proof {
            assert(s1.subrange(lo, ix(a.start)) =~= pa);
            assert(s1.subrange(ix(a.start), ix(a.start) + amount) =~= b1);
            assert(s1.subrange(ix(a.start) + amount, ix(mid)) =~= sa);
            assert(s1.subrange(ix(mid), hi) =~= b2);
            assert(s1.subrange(lo, ix(a.start) + amount) =~= s1.subrange(lo, ix(a.start)) + s1.subrange(ix(a.start), ix(a.start) + amount));
            assert(s1.subrange(lo, hi) =~= s1.subrange(lo, ix(a.start) + amount) + s1.subrange(ix(a.start) + amount, ix(mid)) + s1.subrange(ix(mid), hi));
            assert(s1.subrange(lo, hi) =~= pa + b1 + sa + b2);
            assert(s1.subrange(lo, ix(a.start) + amount) =~= pa + b1);
            assert(s1.subrange(ix(a.start) + amount, ix(mid)) =~= sa);
            assert(s1.subrange(ix(mid), hi) =~= b2);
            assert(s.subrange(ix(b.start), hi) =~= b1 + b2);
            if srt {
                lemma_first_position(s, s[ix(a.start)], ix(b.start), hi, ix(mid), r);
                assert forall|i: int| 0 <= i < b1.len() implies lt(r, #[trigger] b1[i], sa[0]) by {
                    assert(b1[i] == s[b.start + i]);
                }
                lemma_merge_take_b(sa, b1, b2, r);
                assert(pa + (b1 + merged(sa, b2, r)) =~= pa + b1 + merged(sa, b2, r));
                assert forall|i: int, j: int| a.start + amount <= i <= j < mid
                    implies le(r, #[trigger] s1[i], #[trigger] s1[j]) by {
                    assert(s1[i] == s[i - amount]);
                    assert(s1[j] == s[j - amount]);
                }
                assert forall|i: int, j: int| mid <= i <= j < hi
                    implies le(r, #[trigger] s1[i], #[trigger] s1[j]) by {
                    assert(s1[i] == s[i]);
                    assert(s1[j] == s[j]);
                }
            }
        }
        if b.end == mid {
            proof {
                if srt {
                    lemma_merge_empty(sa, b2, r);
                    assert(s1.subrange(lo, hi) =~= pa + b1 + sa);
                }
            }
            break;
        }
        b.start = mid;
        a = a.start + amount..b.start;
        let ghost a_start = ix(a.start);
        let k = binary_last(array, &array[a.start], a.start..a.end, cmp);
        proof {
            let a1 = s1.subrange(a_start, ix(k));
            let a2 = s1.subrange(ix(k), ix(mid));
            assert(sa =~= a1 + a2);
            assert(s1[a_start] == sa[0]);
            if srt {
                lemma_last_position(s1, sa[0], a_start, ix(mid), ix(k), r);
                assert(!lt(r, s1[ix(mid)], sa[0]));
                assert forall|i: int| 0 <= i < a1.len() implies !lt(r, b2[0], #[trigger] a1[i]) by {
                    assert(a1[i] == s1[a_start + i]);
                    assert(!lt(r, sa[0], a1[i]));
                    assert(le(r, a1[i], sa[0]));
                    assert(le(r, sa[0], b2[0]));
                }
                lemma_merge_take_a(a1, a2, b2, r);
                assert(s1.subrange(lo, ix(k)) =~= pa + b1 + a1);
                assert(pa + b1 + (a1 + merged(a2, b2, r)) =~= s1.subrange(lo, ix(k)) + merged(a2, b2, r));
            }
        }
        a.start = k;
        if range_len(&a) == 0 {
            proof {
                if srt {
                    let a2 = s1.subrange(ix(k), ix(mid));
                    lemma_merge_empty(a2, b2, r);
                    assert(s1.subrange(lo, hi) =~= s1.subrange(lo, ix(k)) + b2);
                }
            }
            break;
        }
    }
}

/// Merges the items held in `buffer` (as many as `a` is long) with the range
/// `b`, writing the result over `a` and `b`, which are adjacent. The items
/// that stood in `a` end up in the buffer, in some order. The merge is exact
/// when the buffer lies outside `a` and `b`; otherwise the items are only
/// moved around.
pub(crate) fn merge_internal<T, F>(array: &mut [T], a: Range<usize>, b: Range<usize>, cmp: &F, buffer: Range<usize>)
    where
        F: Fn(&T, &T) -> Ordering,
    requires
        valid_comparator(*cmp),
        a.start <= a.end,
        a.end == b.start,
        b.start <= b.end,
        b.end <= old(array)@.len(),
        buffer.start + (a.end - a.start) <= old(array)@.len(),
    ensures
        final(array)@.len() == old(array)@.len(),
        final(array)@.to_multiset() == old(array)@.to_multiset(),
        forall|k: int| 0 <= k < old(array)@.len() && !(a.start <= k < b.end)
            && !(buffer.start <= k < buffer.start + (a.end - a.start))
            ==> #[trigger] final(array)@[k] == old(array)@[k],
        buffer.start + (a.end - a.start) <= a.start || b.end <= buffer.start
            ==> final(array)@.subrange(ix(a.start), ix(b.end)) == merged(
            old(array)@.subrange(ix(buffer.start), buffer.start + (a.end - a.start)),
            old(array)@.subrange(ix(b.start), ix(b.end)),
            chosen_order(*cmp),
        ),
{
    let ghost r = chosen_order(*cmp);
    let ghost s0 = array@;
    let alen = a.end - a.start;
    let blen = b.end - b.start;
    let ghost sa = s0.subrange(ix(buffer.start), buffer.start + alen);
    let ghost sb = s0.subrange(ix(b.start), ix(b.end));
    let ghost target = merged(sa, sb, r);
    let ghost disj = buffer.start + alen <= a.start || b.end <= buffer.start;
    let n = array.len();
    let mut a_count: usize = 0;
    let mut b_count: usize = 0;
    let mut insert: usize = 0;
    proof {
        assert(sa.skip(0) =~= sa);
        assert(sb.skip(0) =~= sb);
        assert(array@.subrange(ix(a.start), ix(a.start)) + target =~= target);
    }
    if blen > 0 && alen > 0 {
        loop
            invariant_except_break
                a_count < alen,
                b_count < blen,
            invariant
                valid_comparator(*cmp),
                r == chosen_order(*cmp),
                alen == a.end - a.start,
                blen == b.end - b.start,
                a.end == b.start,
                n == s0.len(),
                sa == s0.subrange(ix(buffer.start), buffer.start + alen),
                sb == s0.subrange(ix(b.start), ix(b.end)),
                target == merged(sa, sb, r),
                b.end <= s0.len(),
                buffer.start + alen <= s0.len(),
                disj == (buffer.start + alen <= a.start || b.end <= buffer.start),
                a_count <= alen,
                b_count <= blen,
                a_count == alen || b_count == blen ==> a_count + b_count > 0,
                insert == a_count + b_count,
                array@.len() == s0.len(),
                array@.to_multiset() == s0.to_multiset(),
                forall|k: int| 0 <= k < s0.len() && !(a.start <= k < b.end)
                    && !(buffer.start <= k < buffer.start + alen) ==> #[trigger] array@[k] == s0[k],
                disj ==> forall|k: int| b.start + b_count <= k < b.end ==> #[trigger] array@[k] == s0[k],
                disj ==> forall|k: int| buffer.start + a_count <= k < buffer.start + alen ==> #[trigger] array@[k] == s0[k],
                disj ==> array@.subrange(ix(a.start), a.start + insert) + merged(sa.skip(ix(a_count)), sb.skip(ix(b_count)), r)
                    == target,
            ensures
                a_count == alen || b_count == blen,
            decreases alen + blen - insert,
        {
            let ghost s = array@;
            let ghost ra = sa.skip(ix(a_count));
            let ghost rb = sb.skip(ix(b_count));
            proof {
                if disj {
                    assert(ra[0] == sa[ix(a_count)]);
                    assert(sa[ix(a_count)] == s0[buffer.start + a_count]);
                    assert(s[buffer.start + a_count] == s0[buffer.start + a_count]);
                    assert(rb[0] == sb[ix(b_count)]);
                    assert(sb[ix(b_count)] == s0[b.start + b_count]);
                    assert(s[b.start + b_count] == s0[b.start + b_count]);
                }
            }
            let o = cmp(&array[b.start + b_count], &array[buffer.start + a_count]);
            let is_less = match o {
                Ordering::Less => true,
                _ => false,
            };
            if !is_less {
                proof {
                    lemma_swapped_multiset(s, a.start + insert, buffer.start + a_count);
                }
                swap_items(array, a.start + insert, buffer.start + a_count);
                proof {
                    if disj {
                    assert(ra.drop_first() =~= sa.skip(a_count + 1));
                    assert(array@.subrange(ix(a.start), a.start + insert + 1)
                        =~= s.subrange(ix(a.start), a.start + insert) + seq![ra[0]]);
                    assert(s.subrange(ix(a.start), a.start + insert) + (seq![ra[0]] + merged(ra.drop_first(), rb, r))
                        =~= array@.subrange(ix(a.start), a.start + insert + 1) + merged(ra.drop_first(), rb, r));
                    }
                }
                a_count += 1;
                insert += 1;
                if a_count >= alen {
                    break;
                }
            } else {
                proof {
                    lemma_swapped_multiset(s, a.start + insert, b.start + b_count);
                }
                swap_items(array, a.start + insert, b.start + b_count);
                proof {
                    if disj {
                    assert(rb.drop_first() =~= sb.skip(b_count + 1));
                    assert(array@.subrange(ix(a.start), a.start + insert + 1)
                        =~= s.subrange(ix(a.start), a.start + insert) + seq![rb[0]]);
                    assert(s.subrange(ix(a.start), a.start + insert) + (seq![rb[0]] + merged(ra, rb.drop_first(), r))
                        =~= array@.subrange(ix(a.start), a.start + insert + 1) + merged(ra, rb.drop_first(), r));
                    }
                }
                b_count += 1;
                insert += 1;
                if b_count >= blen {
                    break;
                }
            }
        }
    }
    let ghost s = array@;
    proof {
        if alen == 0 || blen == 0 {
            assert(a_count == 0 && b_count == 0);
        }
        lemma_merge_empty(sa.skip(ix(a_count)), sb.skip(ix(b_count)), r);
    }
    block_swap(array, buffer.start + a_count, a.start + insert, alen - a_count);
    proof {
        if !disj {
        } else if a_count == alen {
            assert(sa.skip(ix(a_count)).len() == 0);
            assert(array@.subrange(ix(a.start), ix(b.end)) =~= s.subrange(ix(a.start), a.start + insert) + sb.skip(ix(b_count)));
        } else {
            assert(b_count == blen);
            assert(sb.skip(ix(b_count)).len() == 0);
            assert(array@.subrange(ix(a.start), ix(b.end)) =~= s.subrange(ix(a.start), a.start + insert) + sa.skip(ix(a_count)));
        }
    }
}

/// Orders the adjacent items at `j - 1` and `j`: exchanges them when the
/// second is less than the first.
fn order_adjacent<T, F>(array: &mut [T], j: usize, cmp: &F)
    where
        F: Fn(&T, &T) -> Ordering,
    requires
        valid_comparator(*cmp),
        1 <= j < old(array)@.len(),
    ensures
        final(array)@.len() == old(array)@.len(),
        final(array)@.to_multiset() == old(array)@.to_multiset(),
        forall|r: spec_fn(T, T) -> Ordering| #[trigger] compares_by(*cmp, r) ==> {
            &&& final(array)@ == if lt(r, old(array)@[ix(j)], old(array)@[j - 1]) {
                swapped(old(array)@, j - 1, ix(j))
            } else {
                old(array)@
            }
            &&& stable_perm(final(array)@, old(array)@, r)
        },
{
    let ghost s = array@;
    let o = cmp(&array[j], &array[j - 1]);
    let less = match o {
        Ordering::Less => true,
        _ => false,
    };
    if less {
        proof {
            lemma_swapped_multiset(s, j - 1, ix(j));
        }
        swap_items(array, j - 1, j);
    }
    proof {
        assert forall|r: spec_fn(T, T) -> Ordering| #[trigger] compares_by(*cmp, r) implies {
            &&& array@ == if lt(r, s[ix(j)], s[j - 1]) { swapped(s, j - 1, ix(j)) } else { s }
            &&& stable_perm(array@, s, r)
        } by {
            lemma_order_facts(r);
            if less {
                assert(r(s[j - 1], s[ix(j)]) == Ordering::Greater);
                lemma_swap_adjacent_stable(s, 0, len_of(s), ix(j), r);
                assert(swapped(s, j - 1, ix(j)) =~= s.update(j - 1, s[ix(j)]).update(ix(j), s[j - 1]));
                assert(s.subrange(0, len_of(s)) =~= s);
                assert(swapped(s, j - 1, ix(j)).subrange(0, len_of(s)) =~= swapped(s, j - 1, ix(j)));
            } else {
                assert(class_in(s, s[0], r) == class_in(s, s[0], r));
            }
        }
    }
}

/// Sorts an array of fewer than four items.
fn sort_tiny<T, F>(array: &mut [T], cmp: &F)
    where
        F: Fn(&T, &T) -> Ordering,
    requires
        valid_comparator(*cmp),
        old(array)@.len() < 4,
    ensures
        final(array)@.len() == old(array)@.len(),
        final(array)@.to_multiset() == old(array)@.to_multiset(),
        forall|r: spec_fn(T, T) -> Ordering| #[trigger] compares_by(*cmp, r) ==> {
            &&& sorted_between(final(array)@, 0, len_of(final(array)@), r)
            &&& stable_perm(final(array)@, old(array)@, r)
        },
{
    let ghost s0 = array@;
    if array.len() == 3 {
        order_adjacent(array, 1, cmp);
        let ghost s1 = array@;
        let o = cmp(&array[2], &array[1]);
        let less = match o {
            Ordering::Less => true,
            _ => false,
        };
        if less {
            proof {
                lemma_swapped_multiset(s1, 1, 2);
            }
            swap_items(array, 1, 2);
            let ghost s2 = array@;
            order_adjacent(array, 1, cmp);
            proof {
                assert forall|r: spec_fn(T, T) -> Ordering| #[trigger] compares_by(*cmp, r) implies {
                    &&& sorted_between(array@, 0, len_of(array@), r)
                    &&& stable_perm(array@, s0, r)
                } by {
                    lemma_order_facts(r);
                    assert(r(s1[1], s1[2]) == Ordering::Greater);
                    lemma_swap_adjacent_stable(s1, 0, len_of(s1), 2, r);
                    assert(swapped(s1, 1, 2) =~= s1.update(1, s1[2]).update(2, s1[1]));
                    assert(s1.subrange(0, len_of(s1)) =~= s1);
                    assert(swapped(s1, 1, 2).subrange(0, len_of(s1)) =~= swapped(s1, 1, 2));
                    assert(s2 == swapped(s1, 1, 2));
                    lemma_stable_trans(s2, s1, s0, r);
                    lemma_stable_trans(array@, s2, s0, r);
                    let f = array@;
                    assert(le(r, s1[0], s1[1]));
                    assert(lt(r, s1[2], s1[1]));
                    assert(le(r, f[0], f[1]));
                    assert(le(r, f[1], f[2]));
                    assert forall|i: int, j: int| 0 <= i <= j < 3 implies le(r, #[trigger] f[i], #[trigger] f[j]) by {
                        if i == 0 && j == 2 {
                            assert(le(r, f[0], f[1]) && le(r, f[1], f[2]));
                        }
                    }
                }
            }
        } else {
            proof {
                assert forall|r: spec_fn(T, T) -> Ordering| #[trigger] compares_by(*cmp, r) implies {
                    &&& sorted_between(array@, 0, len_of(array@), r)
                    &&& stable_perm(array@, s0, r)
                } by {
                    lemma_order_facts(r);
                    let f = array@;
                    assert(le(r, f[0], f[1]));
                    assert(le(r, f[1], f[2]));
                    assert forall|i: int, j: int| 0 <= i <= j < 3 implies le(r, #[trigger] f[i], #[trigger] f[j]) by {
                        if i == 0 && j == 2 {
                            assert(le(r, f[0], f[1]) && le(r, f[1], f[2]));
                        }
                    }
                }
            }
        }
    } else if array.len() == 2 {
        order_adjacent(array, 1, cmp);
        proof {
            assert forall|r: spec_fn(T, T) -> Ordering| #[trigger] compares_by(*cmp, r) implies
                sorted_between(array@, 0, len_of(array@), r) by {
                lemma_order_facts(r);
            }
        }
    } else {
        proof {
            assert forall|r: spec_fn(T, T) -> Ordering| #[trigger] compares_by(*cmp, r) implies {
                &&& sorted_between(array@, 0, len_of(array@), r)
                &&& stable_perm(array@, s0, r)
            } by {
                lemma_order_facts(r);
                assert(forall|x: T| #[trigger] class_in(s0, x, r) == class_in(s0, x, r));
            }
        }
    }
}

/// One comparator of a sorting network over the items at `start + x` and
/// `start + y`: exchanges them when the second is less than the first, or when
/// they are equivalent and `order` shows they were exchanged before, so that
/// equivalent items keep their order.
fn swap_net<T, F>(array: &mut [T], order: &mut [u8], start: usize, x: usize, y: usize, cmp: &F)
    where
        F: Fn(&T, &T) -> Ordering,
    requires
        valid_comparator(*cmp),
        x < y < 8,
        old(order)@.len() == 8,
        start + y < old(array)@.len(),
    ensures
        final(array)@.len() == old(array)@.len(),
        final(array)@.to_multiset() == old(array)@.to_multiset(),
        final(order)@.len() == 8,
        forall|k: int| 0 <= k < old(array)@.len() && k != start + x && k != start + y
            ==> #[trigger] final(array)@[k] == old(array)@[k],
        forall|r: spec_fn(T, T) -> Ordering| #[trigger] compares_by(*cmp, r) ==> {
            &&& final(array)@ == if exchanges(r, old(array)@, old(order)@, ix(start), ix(x), ix(y)) {
                swapped(old(array)@, start + x, start + y)
            } else {
                old(array)@
            }
            &&& final(order)@ == if exchanges(r, old(array)@, old(order)@, ix(start), ix(x), ix(y)) {
                swapped(old(order)@, ix(x), ix(y))
            } else {
                old(order)@
            }
        },
{
    let _n = array.len();
    let o = cmp(&array[start + y], &array[start + x]);
    let less = match o {
        Ordering::Less => true,
        _ => false,
    };
    let exchange = if less {
        true
    } else if order[x] > order[y] {
        let o2 = cmp(&array[start + x], &array[start + y]);
        match o2 {
            Ordering::Less => false,
            _ => true,
        }
    } else {
        false
    };
    let ghost s = array@;
    let ghost os = order@;
    proof {
        assert forall|r: spec_fn(T, T) -> Ordering| #[trigger] compares_by(*cmp, r)
            implies exchange == exchanges(r, s, os, ix(start), ix(x), ix(y)) by {
            lemma_order_facts(r);
        }
    }
    if exchange {
        proof {
            lemma_swapped_multiset(array@, start + x, start + y);
        }
        swap_items(array, start + x, start + y);
        swap_items(order, x, y);
    }
}

/// Sorts the 4 items from `start` stably with the sorting network on 4
/// items, whose comparators break ties by the items' original positions,
/// kept in `order`.
#[verifier::spinoff_prover]
#[verifier::rlimit(40)]
fn sort_range_4<T, F>(array: &mut [T], start: usize, cmp: &F)
    where
        F: Fn(&T, &T) -> Ordering,
    requires
        valid_comparator(*cmp),
        start + 4 <= old(array)@.len(),
    ensures
        final(array)@.len() == old(array)@.len(),
        final(array)@.to_multiset() == old(array)@.to_multiset(),
        forall|k: int| 0 <= k < old(array)@.len() && !(start <= k < start + 4) ==> #[trigger] final(array)@[k] == old(array)@[k],
        forall|r: spec_fn(T, T) -> Ordering| #[trigger] compares_by(*cmp, r) ==> {
            &&& sorted_between(final(array)@, ix(start), start + 4, r)
            &&& stable_perm(final(array)@.subrange(ix(start), start + 4), old(array)@.subrange(ix(start), start + 4), r)
        },
{
    let ghost s0r = array@.subrange(ix(start), start + 4);
    let mut order: [u8; 8] = [0, 1, 2, 3, 4, 5, 6, 7];
    proof {
        assert(order@ =~= seq![0u8, 1u8, 2u8, 3u8, 4u8, 5u8, 6u8, 7u8]);
        assert forall|p: int| 0 <= p < 4 implies #[trigger] tag(order@, p) < 4 && array@[start + p] == s0r[tag(order@, p)] by {
            assert(tag(order@, p) == p);
        }
        assert(tagged(array@, order@, s0r, ix(start), 4));
    }
    let ghost o0 = order@;
    let ghost sb0 = array@;
    let ghost ob0 = order@;
    swap_net(array, &mut order, start, 0, 1, cmp);
    let ghost sb1 = array@;
    let ghost ob1 = order@;
    swap_net(array, &mut order, start, 2, 3, cmp);
    let ghost sb2 = array@;
    let ghost ob2 = order@;
    swap_net(array, &mut order, start, 0, 2, cmp);
    let ghost sb3 = array@;
    let ghost ob3 = order@;
    swap_net(array, &mut order, start, 1, 3, cmp);
    let ghost sb4 = array@;
    let ghost ob4 = order@;
    swap_net(array, &mut order, start, 1, 2, cmp);
    let ghost sbf = array@;
    let ghost obf = order@;
    proof {
        assert forall|r: spec_fn(T, T) -> Ordering| #[trigger] compares_by(*cmp, r) implies {
            &&& sorted_between(array@, ix(start), start + 4, r)
            &&& stable_perm(array@.subrange(ix(start), start + 4), s0r, r)
        } by {
            lemma_order_facts(r);
            lemma_net_step(sb0, sb1, ob0, ob1, s0r, ix(start), 0, 1, 4, r);
            lemma_net_step(sb1, sb2, ob1, ob2, s0r, ix(start), 2, 3, 4, r);
            lemma_net_step(sb2, sb3, ob2, ob3, s0r, ix(start), 0, 2, 4, r);
            lemma_net_step(sb3, sb4, ob3, ob4, s0r, ix(start), 1, 3, 4, r);
            lemma_net_step(sb4, sbf, ob4, obf, s0r, ix(start), 1, 2, 4, r);
            lemma_network_4(rank_at(s0r, o0, 0, r), rank_at(s0r, o0, 1, r), rank_at(s0r, o0, 2, r), rank_at(s0r, o0, 3, r));
            let res = network_4(rank_at(s0r, o0, 0, r), rank_at(s0r, o0, 1, r), rank_at(s0r, o0, 2, r), rank_at(s0r, o0, 3, r));
            assert(rank_at(s0r, order@, 0, r) == res.0);
            assert(rank_at(s0r, order@, 1, r) == res.1);
            assert(rank_at(s0r, order@, 2, r) == res.2);
            assert(rank_at(s0r, order@, 3, r) == res.3);
            assert forall|p: int| 0 <= p < 4 - 1 implies #[trigger] rank_at(s0r, order@, p, r) < rank_at(s0r, order@, p + 1, r) by {
                assert(tag(order@, p) < 4 && tag(order@, p + 1) < 4);
                lemma_rank_order(s0r, tag(order@, p), tag(order@, p + 1), r);
            }
            lemma_network_result(array@, order@, s0r, ix(start), 4, r);
        }
    }
}

/// Sorts the 5 items from `start` stably with the sorting network on 5
/// items, whose comparators break ties by the items' original positions,
/// kept in `order`.
#[verifier::spinoff_prover]
#[verifier::rlimit(40)]
fn sort_range_5<T, F>(array: &mut [T], start: usize, cmp: &F)
    where
        F: Fn(&T, &T) -> Ordering,
    requires
        valid_comparator(*cmp),
        start + 5 <= old(array)@.len(),
    ensures
        final(array)@.len() == old(array)@.len(),
        final(array)@.to_multiset() == old(array)@.to_multiset(),
        forall|k: int| 0 <= k < old(array)@.len() && !(start <= k < start + 5) ==> #[trigger] final(array)@[k] == old(array)@[k],
        forall|r: spec_fn(T, T) -> Ordering| #[trigger] compares_by(*cmp, r) ==> {
            &&& sorted_between(final(array)@, ix(start), start + 5, r)
            &&& stable_perm(final(array)@.subrange(ix(start), start + 5), old(array)@.subrange(ix(start), start + 5), r)
        },
{
    let ghost s0r = array@.subrange(ix(start), start + 5);
    let mut order: [u8; 8] = [0, 1, 2, 3, 4, 5, 6, 7];
    proof {
        assert(order@ =~= seq![0u8, 1u8, 2u8, 3u8, 4u8, 5u8, 6u8, 7u8]);
        assert forall|p: int| 0 <= p < 5 implies #[trigger] tag(order@, p) < 5 && array@[start + p] == s0r[tag(order@, p)] by {
            assert(tag(order@, p) == p);
        }
        assert(tagged(array@, order@, s0r, ix(start), 5));
    }
    let ghost o0 = order@;
    let ghost sb0 = array@;
    let ghost ob0 = order@;
    swap_net(array, &mut order, start, 0, 1, cmp);
    let ghost sb1 = array@;
    let ghost ob1 = order@;
    swap_net(array, &mut order, start, 3, 4, cmp);
    let ghost sb2 = array@;
    let ghost ob2 = order@;
    swap_net(array, &mut order, start, 2, 4, cmp);
    let ghost sb3 = array@;
    let ghost ob3 = order@;
    swap_net(array, &mut order, start, 2, 3, cmp);
    let ghost sb4 = array@;
    let ghost ob4 = order@;
    swap_net(array, &mut order, start, 1, 4, cmp);
    let ghost sb5 = array@;
    let ghost ob5 = order@;
    swap_net(array, &mut order, start, 0, 3, cmp);
    let ghost sb6 = array@;
    let ghost ob6 = order@;
    swap_net(array, &mut order, start, 0, 2, cmp);
    let ghost sb7 = array@;
    let ghost ob7 = order@;
    swap_net(array, &mut order, start, 1, 3, cmp);
    let ghost sb8 = array@;
    let ghost ob8 = order@;
    swap_net(array, &mut order, start, 1, 2, cmp);
    let ghost sbf = array@;
    let ghost obf = order@;
    proof {
        assert forall|r: spec_fn(T, T) -> Ordering| #[trigger] compares_by(*cmp, r) implies {
            &&& sorted_between(array@, ix(start), start + 5, r)
            &&& stable_perm(array@.subrange(ix(start), start + 5), s0r, r)
        } by {
            lemma_order_facts(r);
            lemma_net_step(sb0, sb1, ob0, ob1, s0r, ix(start), 0, 1, 5, r);
            lemma_net_step(sb1, sb2, ob1, ob2, s0r, ix(start), 3, 4, 5, r);
            lemma_net_step(sb2, sb3, ob2, ob3, s0r, ix(start), 2, 4, 5, r);
            lemma_net_step(sb3, sb4, ob3, ob4, s0r, ix(start), 2, 3, 5, r);
            lemma_net_step(sb4, sb5, ob4, ob5, s0r, ix(start), 1, 4, 5, r);
            lemma_net_step(sb5, sb6, ob5, ob6, s0r, ix(start), 0, 3, 5, r);
            lemma_net_step(sb6, sb7, ob6, ob7, s0r, ix(start), 0, 2, 5, r);
            lemma_net_step(sb7, sb8, ob7, ob8, s0r, ix(start), 1, 3, 5, r);
            lemma_net_step(sb8, sbf, ob8, obf, s0r, ix(start), 1, 2, 5, r);
            lemma_network_5(rank_at(s0r, o0, 0, r), rank_at(s0r, o0, 1, r), rank_at(s0r, o0, 2, r), rank_at(s0r, o0, 3, r), rank_at(s0r, o0, 4, r));
            let res = network_5(rank_at(s0r, o0, 0, r), rank_at(s0r, o0, 1, r), rank_at(s0r, o0, 2, r), rank_at(s0r, o0, 3, r), rank_at(s0r, o0, 4, r));
            assert(rank_at(s0r, order@, 0, r) == res.0);
            assert(rank_at(s0r, order@, 1, r) == res.1);
            assert(rank_at(s0r, order@, 2, r) == res.2);
            assert(rank_at(s0r, order@, 3, r) == res.3);
            assert(rank_at(s0r, order@, 4, r) == res.4);
            assert forall|p: int| 0 <= p < 5 - 1 implies #[trigger] rank_at(s0r, order@, p, r) < rank_at(s0r, order@, p + 1, r) by {
                assert(tag(order@, p) < 5 && tag(order@, p + 1) < 5);
                lemma_rank_order(s0r, tag(order@, p), tag(order@, p + 1), r);
            }
            lemma_network_result(array@, order@, s0r, ix(start), 5, r);
        }
    }
}

/// Sorts the 6 items from `start` stably with the sorting network on 6
/// items, whose comparators break ties by the items' original positions,
/// kept in `order`.
#[verifier::spinoff_prover]
#[verifier::rlimit(40)]
fn sort_range_6<T, F>(array: &mut [T], start: usize, cmp: &F)
    where
        F: Fn(&T, &T) -> Ordering,
    requires
        valid_comparator(*cmp),
        start + 6 <= old(array)@.len(),
    ensures
        final(array)@.len() == old(array)@.len(),
        final(array)@.to_multiset() == old(array)@.to_multiset(),
        forall|k: int| 0 <= k < old(array)@.len() && !(start <= k < start + 6) ==> #[trigger] final(array)@[k] == old(array)@[k],
        forall|r: spec_fn(T, T) -> Ordering| #[trigger] compares_by(*cmp, r) ==> {
            &&& sorted_between(final(array)@, ix(start), start + 6, r)
            &&& stable_perm(final(array)@.subrange(ix(start), start + 6), old(array)@.subrange(ix(start), start + 6), r)
        },
{
    let ghost s0r = array@.subrange(ix(start), start + 6);
    let mut order: [u8; 8] = [0, 1, 2, 3, 4, 5, 6, 7];
    proof {
        assert(order@ =~= seq![0u8, 1u8, 2u8, 3u8, 4u8, 5u8, 6u8, 7u8]);
        assert forall|p: int| 0 <= p < 6 implies #[trigger] tag(order@, p) < 6 && array@[start + p] == s0r[tag(order@, p)] by {
            assert(tag(order@, p) == p);
        }
        assert(tagged(array@, order@, s0r, ix(start), 6));
    }
    let ghost o0 = order@;
    let ghost sb0 = array@;
    let ghost ob0 = order@;
    swap_net(array, &mut order, start, 1, 2, cmp);
    let ghost sb1 = array@;
    let ghost ob1 = order@;
    swap_net(array, &mut order, start, 4, 5, cmp);
    let ghost sb2 = array@;
    let ghost ob2 = order@;
    swap_net(array, &mut order, start, 0, 2, cmp);
    let ghost sb3 = array@;
    let ghost ob3 = order@;
    swap_net(array, &mut order, start, 3, 5, cmp);
    let ghost sb4 = array@;
    let ghost ob4 = order@;
    swap_net(array, &mut order, start, 0, 1, cmp);
    let ghost sb5 = array@;
    let ghost ob5 = order@;
    swap_net(array, &mut order, start, 3, 4, cmp);
    let ghost sb6 = array@;
    let ghost ob6 = order@;
    swap_net(array, &mut order, start, 2, 5, cmp);
    let ghost sb7 = array@;
    let ghost ob7 = order@;
    swap_net(array, &mut order, start, 0, 3, cmp);
    let ghost sb8 = array@;
    let ghost ob8 = order@;
    swap_net(array, &mut order, start, 1, 4, cmp);
    let ghost sb9 = array@;
    let ghost ob9 = order@;
    swap_net(array, &mut order, start, 2, 4, cmp);
    let ghost sb10 = array@;
    let ghost ob10 = order@;
    swap_net(array, &mut order, start, 1, 3, cmp);
    let ghost sb11 = array@;
    let ghost ob11 = order@;
    swap_net(array, &mut order, start, 2, 3, cmp);
    let ghost sbf = array@;
    let ghost obf = order@;
    proof {
        assert forall|r: spec_fn(T, T) -> Ordering| #[trigger] compares_by(*cmp, r) implies {
            &&& sorted_between(array@, ix(start), start + 6, r)
            &&& stable_perm(array@.subrange(ix(start), start + 6), s0r, r)
        } by {
            lemma_order_facts(r);
            lemma_net_step(sb0, sb1, ob0, ob1, s0r, ix(start), 1, 2, 6, r);
            lemma_net_step(sb1, sb2, ob1, ob2, s0r, ix(start), 4, 5, 6, r);
            lemma_net_step(sb2, sb3, ob2, ob3, s0r, ix(start), 0, 2, 6, r);
            lemma_net_step(sb3, sb4, ob3, ob4, s0r, ix(start), 3, 5, 6, r);
            lemma_net_step(sb4, sb5, ob4, ob5, s0r, ix(start), 0, 1, 6, r);
            lemma_net_step(sb5, sb6, ob5, ob6, s0r, ix(start), 3, 4, 6, r);
            lemma_net_step(sb6, sb7, ob6, ob7, s0r, ix(start), 2, 5, 6, r);
            lemma_net_step(sb7, sb8, ob7, ob8, s0r, ix(start), 0, 3, 6, r);
            lemma_net_step(sb8, sb9, ob8, ob9, s0r, ix(start), 1, 4, 6, r);
            lemma_net_step(sb9, sb10, ob9, ob10, s0r, ix(start), 2, 4, 6, r);
            lemma_net_step(sb10, sb11, ob10, ob11, s0r, ix(start), 1, 3, 6, r);
            lemma_net_step(sb11, sbf, ob11, obf, s0r, ix(start), 2, 3, 6, r);
            lemma_network_6(rank_at(s0r, o0, 0, r), rank_at(s0r, o0, 1, r), rank_at(s0r, o0, 2, r), rank_at(s0r, o0, 3, r), rank_at(s0r, o0, 4, r), rank_at(s0r, o0, 5, r));
            let res = network_6(rank_at(s0r, o0, 0, r), rank_at(s0r, o0, 1, r), rank_at(s0r, o0, 2, r), rank_at(s0r, o0, 3, r), rank_at(s0r, o0, 4, r), rank_at(s0r, o0, 5, r));
            assert(rank_at(s0r, order@, 0, r) == res.0);
            assert(rank_at(s0r, order@, 1, r) == res.1);
            assert(rank_at(s0r, order@, 2, r) == res.2);
            assert(rank_at(s0r, order@, 3, r) == res.3);
            assert(rank_at(s0r, order@, 4, r) == res.4);
            assert(rank_at(s0r, order@, 5, r) == res.5);
            assert forall|p: int| 0 <= p < 6 - 1 implies #[trigger] rank_at(s0r, order@, p, r) < rank_at(s0r, order@, p + 1, r) by {
                assert(tag(order@, p) < 6 && tag(order@, p + 1) < 6);
                lemma_rank_order(s0r, tag(order@, p), tag(order@, p + 1), r);
            }
            lemma_network_result(array@, order@, s0r, ix(start), 6, r);
        }
    }
}

/// Sorts the 7 items from `start` stably with the sorting network on 7
/// items, whose comparators break ties by the items' original positions,
/// kept in `order`.
#[verifier::spinoff_prover]
#[verifier::rlimit(40)]
fn sort_range_7<T, F>(array: &mut [T], start: usize, cmp: &F)
    where
        F: Fn(&T, &T) -> Ordering,
    requires
        valid_comparator(*cmp),
        start + 7 <= old(array)@.len(),
    ensures
        final(array)@.len() == old(array)@.len(),
        final(array)@.to_multiset() == old(array)@.to_multiset(),
        forall|k: int| 0 <= k < old(array)@.len() && !(start <= k < start + 7) ==> #[trigger] final(array)@[k] == old(array)@[k],
        forall|r: spec_fn(T, T) -> Ordering| #[trigger] compares_by(*cmp, r) ==> {
            &&& sorted_between(final(array)@, ix(start), start + 7, r)
            &&& stable_perm(final(array)@.subrange(ix(start), start + 7), old(array)@.subrange(ix(start), start + 7), r)
        },
{
    let ghost s0r = array@.subrange(ix(start), start + 7);
    let mut order: [u8; 8] = [0, 1, 2, 3, 4, 5, 6, 7];
    proof {
        assert(order@ =~= seq![0u8, 1u8, 2u8, 3u8, 4u8, 5u8, 6u8, 7u8]);
        assert forall|p: int| 0 <= p < 7 implies #[trigger] tag(order@, p) < 7 && array@[start + p] == s0r[tag(order@, p)] by {
            assert(tag(order@, p) == p);
        }
        assert(tagged(array@, order@, s0r, ix(start), 7));
    }
    let ghost o0 = order@;
    let ghost sb0 = array@;
    let ghost ob0 = order@;
    swap_net(array, &mut order, start, 1, 2, cmp);
    let ghost sb1 = array@;
    let ghost ob1 = order@;
    swap_net(array, &mut order, start, 3, 4, cmp);
    let ghost sb2 = array@;
    let ghost ob2 = order@;
    swap_net(array, &mut order, start, 5, 6, cmp);
    let ghost sb3 = array@;
    let ghost ob3 = order@;
    swap_net(array, &mut order, start, 0, 2, cmp);
    let ghost sb4 = array@;
    let ghost ob4 = order@;
    swap_net(array, &mut order, start, 3, 5, cmp);
    let ghost sb5 = array@;
    let ghost ob5 = order@;
    swap_net(array, &mut order, start, 4, 6, cmp);
    let ghost sb6 = array@;
    let ghost ob6 = order@;
    swap_net(array, &mut order, start, 0, 1, cmp);
    let ghost sb7 = array@;
    let ghost ob7 = order@;
    swap_net(array, &mut order, start, 4, 5, cmp);
    let ghost sb8 = array@;
    let ghost ob8 = order@;
    swap_net(array, &mut order, start, 2, 6, cmp);
    let ghost sb9 = array@;
    let ghost ob9 = order@;
    swap_net(array, &mut order, start, 0, 4, cmp);
    let ghost sb10 = array@;
    let ghost ob10 = order@;
    swap_net(array, &mut order, start, 1, 5, cmp);
    let ghost sb11 = array@;
    let ghost ob11 = order@;
    swap_net(array, &mut order, start, 0, 3, cmp);
    let ghost sb12 = array@;
    let ghost ob12 = order@;
    swap_net(array, &mut order, start, 2, 5, cmp);
    let ghost sb13 = array@;
    let ghost ob13 = order@;
    swap_net(array, &mut order, start, 1, 3, cmp);
    let ghost sb14 = array@;
    let ghost ob14 = order@;
    swap_net(array, &mut order, start, 2, 4, cmp);
    let ghost sb15 = array@;
    let ghost ob15 = order@;
    swap_net(array, &mut order, start, 2, 3, cmp);
    let ghost sbf = array@;
    let ghost obf = order@;
    proof {
        assert forall|r: spec_fn(T, T) -> Ordering| #[trigger] compares_by(*cmp, r) implies {
            &&& sorted_between(array@, ix(start), start + 7, r)
            &&& stable_perm(array@.subrange(ix(start), start + 7), s0r, r)
        } by {
            lemma_order_facts(r);
            lemma_net_step(sb0, sb1, ob0, ob1, s0r, ix(start), 1, 2, 7, r);
            lemma_net_step(sb1, sb2, ob1, ob2, s0r, ix(start), 3, 4, 7, r);
            lemma_net_step(sb2, sb3, ob2, ob3, s0r, ix(start), 5, 6, 7, r);
            lemma_net_step(sb3, sb4, ob3, ob4, s0r, ix(start), 0, 2, 7, r);
            lemma_net_step(sb4, sb5, ob4, ob5, s0r, ix(start), 3, 5, 7, r);
            lemma_net_step(sb5, sb6, ob5, ob6, s0r, ix(start), 4, 6, 7, r);
            lemma_net_step(sb6, sb7, ob6, ob7, s0r, ix(start), 0, 1, 7, r);
            lemma_net_step(sb7, sb8, ob7, ob8, s0r, ix(start), 4, 5, 7, r);
            lemma_net_step(sb8, sb9, ob8, ob9, s0r, ix(start), 2, 6, 7, r);
            lemma_net_step(sb9, sb10, ob9, ob10, s0r, ix(start), 0, 4, 7, r);
            lemma_net_step(sb10, sb11, ob10, ob11, s0r, ix(start), 1, 5, 7, r);
            lemma_net_step(sb11, sb12, ob11, ob12, s0r, ix(start), 0, 3, 7, r);
            lemma_net_step(sb12, sb13, ob12, ob13, s0r, ix(start), 2, 5, 7, r);
            lemma_net_step(sb13, sb14, ob13, ob14, s0r, ix(start), 1, 3, 7, r);
            lemma_net_step(sb14, sb15, ob14, ob15, s0r, ix(start), 2, 4, 7, r);
            lemma_net_step(sb15, sbf, ob15, obf, s0r, ix(start), 2, 3, 7, r);
            lemma_network_7(rank_at(s0r, o0, 0, r), rank_at(s0r, o0, 1, r), rank_at(s0r, o0, 2, r), rank_at(s0r, o0, 3, r), rank_at(s0r, o0, 4, r), rank_at(s0r, o0, 5, r), rank_at(s0r, o0, 6, r));
            let res = network_7(rank_at(s0r, o0, 0, r), rank_at(s0r, o0, 1, r), rank_at(s0r, o0, 2, r), rank_at(s0r, o0, 3, r), rank_at(s0r, o0, 4, r), rank_at(s0r, o0, 5, r), rank_at(s0r, o0, 6, r));
            assert(rank_at(s0r, order@, 0, r) == res.0);
            assert(rank_at(s0r, order@, 1, r) == res.1);
            assert(rank_at(s0r, order@, 2, r) == res.2);
            assert(rank_at(s0r, order@, 3, r) == res.3);
            assert(rank_at(s0r, order@, 4, r) == res.4);
            assert(rank_at(s0r, order@, 5, r) == res.5);
            assert(rank_at(s0r, order@, 6, r) == res.6);
            assert forall|p: int| 0 <= p < 7 - 1 implies #[trigger] rank_at(s0r, order@, p, r) < rank_at(s0r, order@, p + 1, r) by {
                assert(tag(order@, p) < 7 && tag(order@, p + 1) < 7);
                lemma_rank_order(s0r, tag(order@, p), tag(order@, p + 1), r);
            }
            lemma_network_result(array@, order@, s0r, ix(start), 7, r);
        }
    }
}

/// Sorts the 8 items from `start` stably with the sorting network on 8
/// items, whose comparators break ties by the items' original positions,
/// kept in `order`.
#[verifier::spinoff_prover]
#[verifier::rlimit(40)]
fn sort_range_8<T, F>(array: &mut [T], start: usize, cmp: &F)
    where
        F: Fn(&T, &T) -> Ordering,
    requires
        valid_comparator(*cmp),
        start + 8 <= old(array)@.len(),
    ensures
        final(array)@.len() == old(array)@.len(),
        final(array)@.to_multiset() == old(array)@.to_multiset(),
        forall|k: int| 0 <= k < old(array)@.len() && !(start <= k < start + 8) ==> #[trigger] final(array)@[k] == old(array)@[k],
        forall|r: spec_fn(T, T) -> Ordering| #[trigger] compares_by(*cmp, r) ==> {
            &&& sorted_between(final(array)@, ix(start), start + 8, r)
            &&& stable_perm(final(array)@.subrange(ix(start), start + 8), old(array)@.subrange(ix(start), start + 8), r)
        },
{
    let ghost s0r = array@.subrange(ix(start), start + 8);
    let mut order: [u8; 8] = [0, 1, 2, 3, 4, 5, 6, 7];
    proof {
        assert(order@ =~= seq![0u8, 1u8, 2u8, 3u8, 4u8, 5u8, 6u8, 7u8]);
        assert forall|p: int| 0 <= p < 8 implies #[trigger] tag(order@, p) < 8 && array@[start + p] == s0r[tag(order@, p)] by {
            assert(tag(order@, p) == p);
        }
        assert(tagged(array@, order@, s0r, ix(start), 8));
    }
    let ghost o0 = order@;
    let ghost sb0 = array@;
    let ghost ob0 = order@;
    swap_net(array, &mut order, start, 0, 1, cmp);
    let ghost sb1 = array@;
    let ghost ob1 = order@;
    swap_net(array, &mut order, start, 2, 3, cmp);
    let ghost sb2 = array@;
    let ghost ob2 = order@;
    swap_net(array, &mut order, start, 4, 5, cmp);
    let ghost sb3 = array@;
    let ghost ob3 = order@;
    swap_net(array, &mut order, start, 6, 7, cmp);
    let ghost sb4 = array@;
    let ghost ob4 = order@;
    swap_net(array, &mut order, start, 0, 2, cmp);
    let ghost sb5 = array@;
    let ghost ob5 = order@;
    swap_net(array, &mut order, start, 1, 3, cmp);
    let ghost sb6 = array@;
    let ghost ob6 = order@;
    swap_net(array, &mut order, start, 4, 6, cmp);
    let ghost sb7 = array@;
    let ghost ob7 = order@;
    swap_net(array, &mut order, start, 5, 7, cmp);
    let ghost sb8 = array@;
    let ghost ob8 = order@;
    swap_net(array, &mut order, start, 1, 2, cmp);
    let ghost sb9 = array@;
    let ghost ob9 = order@;
    swap_net(array, &mut order, start, 5, 6, cmp);
    let ghost sb10 = array@;
    let ghost ob10 = order@;
    swap_net(array, &mut order, start, 0, 4, cmp);
    let ghost sb11 = array@;
    let ghost ob11 = order@;
    swap_net(array, &mut order, start, 3, 7, cmp);
    let ghost sb12 = array@;
    let ghost ob12 = order@;
    swap_net(array, &mut order, start, 1, 5, cmp);
    let ghost sb13 = array@;
    let ghost ob13 = order@;
    swap_net(array, &mut order, start, 2, 6, cmp);
    let ghost sb14 = array@;
    let ghost ob14 = order@;
    swap_net(array, &mut order, start, 1, 4, cmp);
    let ghost sb15 = array@;
    let ghost ob15 = order@;
    swap_net(array, &mut order, start, 3, 6, cmp);
    let ghost sb16 = array@;
    let ghost ob16 = order@;
    swap_net(array, &mut order, start, 2, 4, cmp);
    let ghost sb17 = array@;
    let ghost ob17 = order@;
    swap_net(array, &mut order, start, 3, 5, cmp);
    let ghost sb18 = array@;
    let ghost ob18 = order@;
    swap_net(array, &mut order, start, 3, 4, cmp);
    let ghost sbf = array@;
    let ghost obf = order@;
    proof {
        assert forall|r: spec_fn(T, T) -> Ordering| #[trigger] compares_by(*cmp, r) implies {
            &&& sorted_between(array@, ix(start), start + 8, r)
            &&& stable_perm(array@.subrange(ix(start), start + 8), s0r, r)
        } by {
            lemma_order_facts(r);
            lemma_net_step(sb0, sb1, ob0, ob1, s0r, ix(start), 0, 1, 8, r);
            lemma_net_step(sb1, sb2, ob1, ob2, s0r, ix(start), 2, 3, 8, r);
            lemma_net_step(sb2, sb3, ob2, ob3, s0r, ix(start), 4, 5, 8, r);
            lemma_net_step(sb3, sb4, ob3, ob4, s0r, ix(start), 6, 7, 8, r);
            lemma_net_step(sb4, sb5, ob4, ob5, s0r, ix(start), 0, 2, 8, r);
            lemma_net_step(sb5, sb6, ob5, ob6, s0r, ix(start), 1, 3, 8, r);
            lemma_net_step(sb6, sb7, ob6, ob7, s0r, ix(start), 4, 6, 8, r);
            lemma_net_step(sb7, sb8, ob7, ob8, s0r, ix(start), 5, 7, 8, r);
            lemma_net_step(sb8, sb9, ob8, ob9, s0r, ix(start), 1, 2, 8, r);
            lemma_net_step(sb9, sb10, ob9, ob10, s0r, ix(start), 5, 6, 8, r);
            lemma_net_step(sb10, sb11, ob10, ob11, s0r, ix(start), 0, 4, 8, r);
            lemma_net_step(sb11, sb12, ob11, ob12, s0r, ix(start), 3, 7, 8, r);
            lemma_net_step(sb12, sb13, ob12, ob13, s0r, ix(start), 1, 5, 8, r);
            lemma_net_step(sb13, sb14, ob13, ob14, s0r, ix(start), 2, 6, 8, r);
            lemma_net_step(sb14, sb15, ob14, ob15, s0r, ix(start), 1, 4, 8, r);
            lemma_net_step(sb15, sb16, ob15, ob16, s0r, ix(start), 3, 6, 8, r);
            lemma_net_step(sb16, sb17, ob16, ob17, s0r, ix(start), 2, 4, 8, r);
            lemma_net_step(sb17, sb18, ob17, ob18, s0r, ix(start), 3, 5, 8, r);
            lemma_net_step(sb18, sbf, ob18, obf, s0r, ix(start), 3, 4, 8, r);
            lemma_network_8(rank_at(s0r, o0, 0, r), rank_at(s0r, o0, 1, r), rank_at(s0r, o0, 2, r), rank_at(s0r, o0, 3, r), rank_at(s0r, o0, 4, r), rank_at(s0r, o0, 5, r), rank_at(s0r, o0, 6, r), rank_at(s0r, o0, 7, r));
            let res = network_8(rank_at(s0r, o0, 0, r), rank_at(s0r, o0, 1, r), rank_at(s0r, o0, 2, r), rank_at(s0r, o0, 3, r), rank_at(s0r, o0, 4, r), rank_at(s0r, o0, 5, r), rank_at(s0r, o0, 6, r), rank_at(s0r, o0, 7, r));
            assert(rank_at(s0r, order@, 0, r) == res.0);
            assert(rank_at(s0r, order@, 1, r) == res.1);
            assert(rank_at(s0r, order@, 2, r) == res.2);
            assert(rank_at(s0r, order@, 3, r) == res.3);
            assert(rank_at(s0r, order@, 4, r) == res.4);
            assert(rank_at(s0r, order@, 5, r) == res.5);
            assert(rank_at(s0r, order@, 6, r) == res.6);
            assert(rank_at(s0r, order@, 7, r) == res.7);
            assert forall|p: int| 0 <= p < 8 - 1 implies #[trigger] rank_at(s0r, order@, p, r) < rank_at(s0r, order@, p + 1, r) by {
                assert(tag(order@, p) < 8 && tag(order@, p + 1) < 8);
                lemma_rank_order(s0r, tag(order@, p), tag(order@, p + 1), r);
            }
            lemma_network_result(array@, order@, s0r, ix(start), 8, r);
        }
    }
}

/// Sorts the `n` items from `start` (four to eight of them) stably with a
/// sorting network.
fn sort_range<T, F>(array: &mut [T], start: usize, n: usize, cmp: &F)
    where
        F: Fn(&T, &T) -> Ordering,
    requires
        valid_comparator(*cmp),
        4 <= n <= 8,
        start + n <= old(array)@.len(),
    ensures
        final(array)@.len() == old(array)@.len(),
        final(array)@.to_multiset() == old(array)@.to_multiset(),
        forall|k: int| 0 <= k < old(array)@.len() && !(start <= k < start + n) ==> #[trigger] final(array)@[k] == old(array)@[k],
        forall|r: spec_fn(T, T) -> Ordering| #[trigger] compares_by(*cmp, r) ==> {
            &&& sorted_between(final(array)@, ix(start), start + n, r)
            &&& stable_perm(final(array)@.subrange(ix(start), start + n), old(array)@.subrange(ix(start), start + n), r)
        },
{
    if n == 8 {
        sort_range_8(array, start, cmp);
    } else if n == 7 {
        sort_range_7(array, start, cmp);
    } else if n == 6 {
        sort_range_6(array, start, cmp);
    } else if n == 5 {
        sort_range_5(array, start, cmp);
    } else {
        sort_range_4(array, start, cmp);
    }
}

/// Sorts each range of the iterator's first level, of four to eight items,
/// with a sorting network. Where the level is a single range, the whole
/// array ends sorted, as a stable reordering.
fn sort_networks<T, F>(array: &mut [T], iterator: &mut WikiIterator, cmp: &F)
    where
        F: Fn(&T, &T) -> Ordering,
    requires
        valid_comparator(*cmp),
        old(iterator).wf(),
        old(iterator).size_spec() == old(array)@.len(),
        old(iterator).decimal_step_spec() >= 4,
        old(iterator).size_spec() < old(iterator).ranges() * 8,
    ensures
        final(array)@.len() == old(array)@.len(),
        final(array)@.to_multiset() == old(array)@.to_multiset(),
        final(iterator).wf(),
        final(iterator).size_spec() == old(iterator).size_spec(),
        final(iterator).ranges() == old(iterator).ranges(),
        final(iterator).decimal_step_spec() == old(iterator).decimal_step_spec(),
        old(iterator).ranges() == 1 ==> forall|r: spec_fn(T, T) -> Ordering| #[trigger] compares_by(*cmp, r) ==>
            sorted_between(final(array)@, 0, len_of(old(array)@), r) && stable_perm(final(array)@, old(array)@, r),
{
    let ghost s0 = array@;
    iterator.begin();
    proof {
        iterator.lemma_positioned();
    }
    while !iterator.finished()
        invariant
            valid_comparator(*cmp),
            iterator.positioned(),
            iterator.size_spec() == s0.len(),
            iterator.ranges() == old(iterator).ranges(),
            iterator.decimal_step_spec() == old(iterator).decimal_step_spec(),
            iterator.decimal_step_spec() >= 4,
            iterator.size_spec() < iterator.ranges() * 8,
            array@.len() == s0.len(),
            array@.to_multiset() == s0.to_multiset(),
            iterator.consumed() == 0 ==> array@ == s0 && iterator.decimal_spec() == 0,
            iterator.ranges() == 1 && iterator.consumed() == 1 ==> forall|r: spec_fn(T, T) -> Ordering|
                #[trigger] compares_by(*cmp, r) ==> sorted_between(array@, 0, len_of(s0), r) && stable_perm(array@, s0, r),
        decreases iterator.ranges() - iterator.consumed(),
    {
        proof {
            iterator.lemma_positioned();
        }
        let ghost first = iterator.consumed() == 0;
        let range = iterator.next_range();
        proof {
            if first && iterator.ranges() == 1 {
                iterator.lemma_last_range();
            }
        }
        let n = range_len(&range);
        if n >= 4 && n <= 8 {
            sort_range(array, range.start, n, cmp);
            proof {
                if first && iterator.ranges() == 1 {
                    assert(array@.subrange(0, len_of(s0)) =~= array@);
                    assert(s0.subrange(0, len_of(s0)) =~= s0);
                }
            }
        }
    }
    proof {
        iterator.lemma_positioned();
    }
}

/// Where a run of distinct values was found (`from`), where it is gathered
/// (`to`: the start of the pair of ranges, or its end), how many values it
/// holds, and the pair of ranges it belongs to.
#[derive(Clone, Copy)]
pub struct Pull {
    pub from: usize,
    pub to: usize,
    pub count: usize,
    pub range_start: usize,
    pub range_end: usize,
}

/// The bounds a pull keeps: it lies inside an array of `n` items, holds at
/// most `bound` values, and is gathered at the start of its range when taken
/// from the left and at the end when taken from the right.
pub open spec fn pull_ok(p: Pull, n: int, bound: int) -> bool {
    &&& p.count <= bound
    &&& p.range_start <= p.range_end <= n
    &&& p.from > p.to ==> {
        &&& p.to == p.range_start
        &&& p.from < p.range_end
        &&& p.range_start + p.count <= p.range_end
    }
    &&& p.from < p.to ==> {
        &&& p.to == p.range_end
        &&& p.range_start + p.count <= p.range_end
    }
}

/// The number of positions in `lo..hi` of `s` where a new class of
/// equivalent items begins (the first one, and each one greater than the
/// item before it).
pub open spec fn starts<T>(s: Seq<T>, lo: int, hi: int, r: spec_fn(T, T) -> Ordering) -> nat
    decreases hi - lo,
{
    if hi <= lo {
        0
    } else {
        starts(s, lo, hi - 1, r) + if hi - 1 == lo || lt(r, s[hi - 2], s[hi - 1]) { 1nat } else { 0nat }
    }
}

proof fn lemma_starts_same<T>(s: Seq<T>, t: Seq<T>, lo: int, hi: int, r: spec_fn(T, T) -> Ordering)
    requires
        forall|k: int| lo <= k < hi ==> #[trigger] t[k] == s[k],
    ensures
        starts(t, lo, hi, r) == starts(s, lo, hi, r),
    decreases hi - lo,
{
    if hi > lo {
        lemma_starts_same(s, t, lo, hi - 1, r);
        if hi - 1 > lo {
            assert(t[hi - 2] == s[hi - 2] && t[hi - 1] == s[hi - 1]);
        }
    }
}

proof fn lemma_starts_pos<T>(s: Seq<T>, lo: int, hi: int, r: spec_fn(T, T) -> Ordering)
    requires
        lo < hi,
    ensures
        starts(s, lo, hi, r) >= 1,
    decreases hi - lo,
{
    if hi - 1 > lo {
        lemma_starts_pos(s, lo, hi - 1, r);
    }
}

/// A class that begins at `f` and runs up to `i` adds one start.
proof fn lemma_starts_class<T>(s: Seq<T>, lo: int, f: int, i: int, r: spec_fn(T, T) -> Ordering)
    requires
        lo <= f < i,
        f == lo || lt(r, s[f - 1], s[f]),
        forall|k: int| f < k < i ==> !lt(r, s[k - 1], #[trigger] s[k]),
    ensures
        starts(s, lo, i, r) == starts(s, lo, f, r) + 1,
    decreases i - f,
{
    if i > f + 1 {
        lemma_starts_class(s, lo, f, i - 1, r);
        assert(!lt(r, s[i - 2], s[i - 1]));
    }
}

/// The number of positions in `lo..hi` of `s` where a class of equivalent
/// items ends (the last one, and each one less than the item after it).
pub open spec fn ends<T>(s: Seq<T>, lo: int, hi: int, r: spec_fn(T, T) -> Ordering) -> nat
    decreases hi - lo,
{
    if hi <= lo {
        0
    } else {
        ends(s, lo + 1, hi, r) + if lo == hi - 1 || lt(r, s[lo], s[lo + 1]) { 1nat } else { 0nat }
    }
}

proof fn lemma_ends_same<T>(s: Seq<T>, t: Seq<T>, lo: int, hi: int, r: spec_fn(T, T) -> Ordering)
    requires
        forall|k: int| lo <= k < hi ==> #[trigger] t[k] == s[k],
    ensures
        ends(t, lo, hi, r) == ends(s, lo, hi, r),
    decreases hi - lo,
{
    if hi > lo {
        lemma_ends_same(s, t, lo + 1, hi, r);
        if lo < hi - 1 {
            assert(t[lo] == s[lo] && t[lo + 1] == s[lo + 1]);
        }
    }
}

proof fn lemma_ends_pos<T>(s: Seq<T>, lo: int, hi: int, r: spec_fn(T, T) -> Ordering)
    requires
        lo < hi,
    ensures
        ends(s, lo, hi, r) >= 1,
    decreases hi - lo,
{
    if lo < hi - 1 {
        lemma_ends_pos(s, lo + 1, hi, r);
    }
}

/// A class that runs from `i` and ends at `f - 1` adds one end.
proof fn lemma_ends_class<T>(s: Seq<T>, i: int, f: int, hi: int, r: spec_fn(T, T) -> Ordering)
    requires
        i < f <= hi,
        f == hi || lt(r, s[f - 1], s[f]),
        forall|k: int| i <= k < f - 1 ==> !lt(r, #[trigger] s[k], s[k + 1]),
    ensures
        ends(s, i, hi, r) == ends(s, f, hi, r) + 1,
    decreases f - i,
{
    if i < f - 1 {
        lemma_ends_class(s, i + 1, f, hi, r);
        assert(!lt(r, s[i], s[i + 1]));
    }
}

/// Gathers the distinct values recorded by `pull` next to each other at its
/// target end, one value at a time, each rotated past the items between it
/// and the values already gathered. Taken from the left of a sorted range
/// whose `count` classes begin up to `from`, the first item of each class
/// ends at the start of the range, in increasing order, and the rest stays
/// sorted after them. Where a search finds no room the gathering stops (the
/// algorithm never reaches such a state on ranges that it has sorted).
fn pull_out<T, F>(array: &mut [T], pull: Pull, cmp: &F) -> (res: Pull)
    where
        F: Fn(&T, &T) -> Ordering,
    requires
        valid_comparator(*cmp),
        pull_ok(pull, len_of(old(array)@), len_of(old(array)@)),
    ensures
        final(array)@.len() == old(array)@.len(),
        final(array)@.to_multiset() == old(array)@.to_multiset(),
        pull_ok(res, len_of(old(array)@), ix(pull.count)),
        res.to == pull.to,
        res.count == pull.count,
        res.range_start == pull.range_start,
        res.range_end == pull.range_end,
        pull.from > pull.to ==> res.from > res.to,
        pull.from < pull.to ==> res.from < res.to,
        pull.from == pull.to ==> res.from == res.to,
        pull.from > pull.to && pull.count >= 1
            && sorted_between(old(array)@, ix(pull.to), pull.from + 1, chosen_order(*cmp))
            && lt(chosen_order(*cmp), old(array)@[pull.from - 1], old(array)@[ix(pull.from)])
            && starts(old(array)@, ix(pull.to), ix(pull.from), chosen_order(*cmp)) + 1 == pull.count
            ==> {
                &&& res.from == pull.to + pull.count - 1
                &&& strictly_sorted_between(final(array)@, ix(pull.to), pull.to + pull.count, chosen_order(*cmp))
                &&& sorted_between(final(array)@, pull.to + pull.count, pull.from + 1, chosen_order(*cmp))
                &&& forall|k: int| 0 <= k < old(array)@.len() && !(pull.to <= k <= pull.from)
                    ==> #[trigger] final(array)@[k] == old(array)@[k]
            },
        pull.from < pull.to && pull.count >= 1
            && sorted_between(old(array)@, ix(pull.from), ix(pull.to), chosen_order(*cmp))
            && (pull.from + 1 == pull.to || lt(chosen_order(*cmp), old(array)@[ix(pull.from)], old(array)@[pull.from + 1]))
            && ends(old(array)@, pull.from + 1, ix(pull.to), chosen_order(*cmp)) + 1 == pull.count
            ==> {
                &&& res.from == pull.to - pull.count
                &&& strictly_sorted_between(final(array)@, pull.to - pull.count, ix(pull.to), chosen_order(*cmp))
                &&& sorted_between(final(array)@, ix(pull.from), pull.to - pull.count, chosen_order(*cmp))
                &&& forall|k: int| 0 <= k < old(array)@.len() && !(pull.from <= k < pull.to)
                    ==> #[trigger] final(array)@[k] == old(array)@[k]
            },
{
    let ghost s0 = array@;
    let ghost r = chosen_order(*cmp);
    let n = array.len();
    let mut p = pull;
    let len = p.count;
    proof {
        lemma_order_facts(r);
    }
    if p.to < p.from {
        let ghost to = ix(pull.to);
        let ghost f0 = ix(pull.from);
        let ghost g = pull.count >= 1 && sorted_between(s0, to, f0 + 1, r) && lt(r, s0[f0 - 1], s0[f0])
            && starts(s0, to, f0, r) + 1 == pull.count;
        let mut index = p.from;
        let mut count: usize = 1;
        proof {
            if g {
                assert forall|k: int| to <= k < f0 implies lt(r, #[trigger] s0[k], s0[f0]) by {
                    assert(le(r, s0[k], s0[f0 - 1]));
                }
            }
        }
        while count < len
            invariant
                valid_comparator(*cmp),
                r == chosen_order(*cmp),
                is_total_preorder(r),
                n == array@.len(),
                array@.len() == s0.len(),
                array@.to_multiset() == s0.to_multiset(),
                p.to == pull.to,
                p.count == pull.count,
                p.range_start == pull.range_start,
                p.range_end == pull.range_end,
                len == p.count,
                pull_ok(p, len_of(s0), ix(pull.count)),
                p.to < p.from,
                1 <= count,
                p.from >= count - 1,
                index == p.from - (count - 1),
                p.to <= index,
                to == pull.to,
                f0 == pull.from,
                f0 < n,
                g == (pull.count >= 1 && sorted_between(s0, to, f0 + 1, r) && lt(r, s0[f0 - 1], s0[f0])
                    && starts(s0, to, f0, r) + 1 == pull.count),
                g ==> {
                    &&& p.from == index + count - 1
                    &&& index + count - 1 <= f0
                    &&& forall|k: int| 0 <= k < n && !(to <= k <= f0) ==> #[trigger] array@[k] == s0[k]
                    &&& forall|k: int| to <= k < index ==> #[trigger] array@[k] == s0[k]
                    &&& sorted_between(s0, to, f0 + 1, r)
                    &&& strictly_sorted_between(array@, ix(index), index + count, r)
                    &&& sorted_between(array@, index + count, f0 + 1, r)
                    &&& forall|k: int| index + count <= k <= f0 ==> le(r, array@[ix(index)], #[trigger] array@[k])
                    &&& forall|k: int| to <= k < index ==> lt(r, #[trigger] array@[k], array@[ix(index)])
                    &&& starts(array@, to, ix(index), r) + count == len
                },
            ensures
                g ==> count >= len,
            decreases len - count,
        {
            let ghost s = array@;
            proof {
                lemma_order_facts(r);
                if g {
                    if index == to {
                        assert(starts(s, to, ix(index), r) == 0);
                    }
                    assert(index > to);
                    assert(sorted_between(s, to, ix(index), r)) by {
                        assert forall|i: int, j: int| to <= i <= j < index implies le(r, #[trigger] s[i], #[trigger] s[j]) by {
                            assert(s[i] == s0[i] && s[j] == s0[j]);
                        }
                    }
                }
            }
            if index == 0 {
                break;
            }
            let found = find_first_backward(array, &array[index - 1], p.to..p.from - (count - 1), cmp, len - count);
            if found == index {
                proof {
                    if g {
                        assert(is_first_position(s, s[index - 1], to, ix(index), ix(found), r));
                        assert(lt(r, s[index - 1], s[index - 1]));
                    }
                }
                break;
            }
            let range = found + 1..p.from + 1;
            let span = range_len(&range);
            rotate(array, span - count, range);
            proof {
                if g {
                    let s1 = array@;
                    let fd = ix(found);
                    let ix0 = ix(index);
                    let c = ix(count);
                    let v = s[ix0 - 1];
                    let amount = ix0 - fd - 1;
                    // The rotation brings the gathered values down to `found + 1`.
                    assert forall|k: int| fd + 1 <= k < fd + 1 + c implies #[trigger] s1[k] == s[k + amount] by {}
                    assert forall|k: int| fd + 1 + c <= k < ix0 + c implies #[trigger] s1[k] == s[k - c] by {}
                    assert forall|k: int| 0 <= k < n && !(fd + 1 <= k < ix0 + c) implies #[trigger] s1[k] == s[k] by {}
                    // The class of `v` runs from `found` to `index`.
                    assert forall|k: int| fd <= k < ix0 implies r(#[trigger] s[k], v) == Ordering::Equal by {
                        assert(!lt(r, s[k], v));
                        assert(le(r, s[k], s[ix0 - 1]));
                    }
                    assert(is_first_position(s, v, to, ix0, fd, r));
                    assert(r(s[fd], v) == Ordering::Equal);
                    lemma_equal_flip(r, s[fd], v);
                    assert(fd == to || lt(r, s[fd - 1], s[fd])) by {
                        if fd > to {
                            assert(lt(r, s[fd - 1], v));
                        }
                    }
                    assert forall|k: int| fd < k < ix0 implies !lt(r, s[k - 1], #[trigger] s[k]) by {
                        assert(r(s[k - 1], v) == Ordering::Equal);
                        assert(r(s[k], v) == Ordering::Equal);
                        assert(le(r, s[k - 1], v));
                        assert(le(r, v, s[k]));
                        lemma_equal_flip(r, s[k], v);
                        assert(le(r, s[k], s[k - 1])) by {
                            lemma_equal_flip(r, s[k - 1], v);
                        }
                    }
                    lemma_starts_class(s, to, fd, ix0, r);
                    lemma_starts_same(s, s1, to, fd, r);
                    assert(lt(r, v, s[ix0]));
                    assert(s1[fd] == s[fd]);
                    assert(r(s[fd], v) == Ordering::Equal);
                    assert(lt(r, s[fd], s[ix0])) by {
                        lemma_equal_flip(r, s[fd], v);
                    }
                    assert(strictly_sorted_between(s1, fd, fd + c + 1, r)) by {
                        assert forall|i: int, j: int| fd <= i < j < fd + c + 1 implies lt(r, #[trigger] s1[i], #[trigger] s1[j]) by {
                            if i == fd {
                                assert(s1[j] == s[j + amount]);
                                if j > fd + 1 {
                                    assert(lt(r, s[ix0], s[j + amount]));
                                    assert(le(r, s[ix0], s[j + amount]));
                                }
                            } else {
                                assert(s1[i] == s[i + amount] && s1[j] == s[j + amount]);
                                assert(ix0 <= i + amount < j + amount < ix0 + c);
                                assert(lt(r, s[i + amount], s[j + amount]));
                            }
                        }
                    }
                    assert forall|k: int| fd + c + 1 <= k <= f0 implies le(r, s1[fd], #[trigger] s1[k]) by {
                        if k < ix0 + c {
                            assert(s1[k] == s[k - c]);
                            assert(r(s[k - c], v) == Ordering::Equal);
                            lemma_equal_flip(r, s[fd], v);
                            lemma_equal_trans(r, s[fd], s[k - c], v);
                        } else {
                            assert(s1[k] == s[k]);
                            assert(le(r, s[ix0], s[k]));
                            assert(lt(r, s[fd], s[ix0]));
                        }
                    }
                    assert(sorted_between(s1, fd + c + 1, f0 + 1, r)) by {
                        assert forall|i: int, j: int| fd + c + 1 <= i <= j < f0 + 1 implies le(r, #[trigger] s1[i], #[trigger] s1[j]) by {
                            if j < ix0 + c {
                                assert(s1[i] == s[i - c] && s1[j] == s[j - c]);
                                assert(r(s[i - c], v) == Ordering::Equal && r(s[j - c], v) == Ordering::Equal);
                                lemma_equal_trans(r, s[i - c], s[j - c], v);
                            } else if i >= ix0 + c {
                                assert(s1[i] == s[i] && s1[j] == s[j]);
                            } else {
                                assert(s1[i] == s[i - c] && s1[j] == s[j]);
                                assert(r(s[i - c], v) == Ordering::Equal);
                                assert(le(r, s[i - c], v));
                                assert(lt(r, v, s[ix0]));
                                assert(le(r, s[ix0], s[j]));
                            }
                        }
                    }
                    assert forall|k: int| to <= k < fd implies lt(r, #[trigger] s1[k], s1[fd]) by {
                        assert(s1[k] == s[k]);
                        assert(lt(r, s[k], v));
                        lemma_equal_flip(r, s[fd], v);
                    }
                }
            }
            p.from = found + count;
            index = found;
            count += 1;
        }
        proof {
            if g {
                if index > to {
                    lemma_starts_pos(array@, to, ix(index), r);
                }
                assert(index == to);
            }
        }
    } else if p.to > p.from {
        let ghost to = ix(pull.to);
        let ghost f0 = ix(pull.from);
        let ghost g = pull.count >= 1 && sorted_between(s0, f0, to, r)
            && (f0 + 1 == to || lt(r, s0[f0], s0[f0 + 1]))
            && ends(s0, f0 + 1, to, r) + 1 == pull.count;
        let mut index = p.from + 1;
        let mut count: usize = 1;
        proof {
            if g {
                assert forall|k: int| f0 + 1 <= k < to implies lt(r, s0[f0], #[trigger] s0[k]) by {
                    assert(le(r, s0[f0 + 1], s0[k]));
                }
            }
        }
        while count < len
            invariant
                valid_comparator(*cmp),
                r == chosen_order(*cmp),
                is_total_preorder(r),
                n == array@.len(),
                array@.len() == s0.len(),
                array@.to_multiset() == s0.to_multiset(),
                p.to == pull.to,
                p.count == pull.count,
                p.range_start == pull.range_start,
                p.range_end == pull.range_end,
                len == p.count,
                pull_ok(p, len_of(s0), ix(pull.count)),
                p.from < p.to,
                1 <= count,
                index == p.from + count,
                index <= p.to,
                to == pull.to,
                f0 == pull.from,
                to <= n,
                g == (pull.count >= 1 && sorted_between(s0, f0, to, r)
                    && (f0 + 1 == to || lt(r, s0[f0], s0[f0 + 1]))
                    && ends(s0, f0 + 1, to, r) + 1 == pull.count),
                g ==> {
                    &&& f0 <= p.from
                    &&& forall|k: int| 0 <= k < n && !(f0 <= k < to) ==> #[trigger] array@[k] == s0[k]
                    &&& forall|k: int| index <= k < to ==> #[trigger] array@[k] == s0[k]
                    &&& sorted_between(s0, f0, to, r)
                    &&& strictly_sorted_between(array@, ix(p.from), ix(index), r)
                    &&& sorted_between(array@, f0, ix(p.from), r)
                    &&& forall|k: int| f0 <= k < p.from ==> le(r, #[trigger] array@[k], array@[index - 1])
                    &&& forall|k: int| index <= k < to ==> lt(r, array@[index - 1], #[trigger] array@[k])
                    &&& ends(array@, ix(index), to, r) + count == len
                },
            ensures
                g ==> count >= len,
            decreases len - count,
        {
            let ghost s = array@;
            proof {
                lemma_order_facts(r);
                if g {
                    if index == to {
                        assert(ends(s, ix(index), to, r) == 0);
                    }
                    assert(index < to);
                    assert(sorted_between(s, ix(index), to, r)) by {
                        assert forall|i: int, j: int| index <= i <= j < to implies le(r, #[trigger] s[i], #[trigger] s[j]) by {
                            assert(s[i] == s0[i] && s[j] == s0[j]);
                        }
                    }
                }
            }
            if index >= n {
                break;
            }
            let found = find_last_forward(array, &array[index], index..p.to, cmp, len - count);
            proof {
                if g {
                    assert(is_last_position(s, s[ix(index)], ix(index), to, ix(found), r));
                    if found == index {
                        assert(lt(r, s[ix(index)], s[ix(index)]));
                    }
                }
            }
            if found - 1 < count {
                break;
            }
            rotate(array, count, p.from..found - 1);
            proof {
                if g {
                    let s1 = array@;
                    let fd = ix(found);
                    let ix0 = ix(index);
                    let c = ix(count);
                    let pf = ix(p.from);
                    let v = s[ix0];
                    // The rotation lifts the gathered values up to `found - 1`.
                    assert forall|k: int| pf <= k < fd - 1 - c implies #[trigger] s1[k] == s[k + c] by {}
                    assert forall|k: int| fd - 1 - c <= k < fd - 1 implies #[trigger] s1[k] == s[k - (fd - 1 - pf - c)] by {}
                    assert forall|k: int| 0 <= k < n && !(pf <= k < fd - 1) implies #[trigger] s1[k] == s[k] by {}
                    // The class of `v` runs from `index` to `found`.
                    assert forall|k: int| ix0 <= k < fd implies r(#[trigger] s[k], v) == Ordering::Equal by {
                        assert(!lt(r, v, s[k]));
                        assert(le(r, v, s[k]));
                    }
                    lemma_equal_flip(r, s[fd - 1], v);
                    assert(fd == to || lt(r, s[fd - 1], s[fd])) by {
                        if fd < to {
                            assert(lt(r, v, s[fd]));
                        }
                    }
                    assert forall|k: int| ix0 <= k < fd - 1 implies !lt(r, #[trigger] s[k], s[k + 1]) by {
                        lemma_equal_flip(r, s[k], v);
                        lemma_equal_flip(r, s[k + 1], v);
                    }
                    lemma_ends_class(s, ix0, fd, to, r);
                    lemma_ends_same(s, s1, fd, to, r);
                    assert(lt(r, s[ix0 - 1], v));
                    assert(s1[fd - 1] == s[fd - 1]);
                    assert(lt(r, s[ix0 - 1], s[fd - 1]));
                    assert(strictly_sorted_between(s1, fd - 1 - c, fd, r)) by {
                        assert forall|i: int, j: int| fd - 1 - c <= i < j < fd implies lt(r, #[trigger] s1[i], #[trigger] s1[j]) by {
                            assert(s1[i] == s[i - (fd - 1 - pf - c)]);
                            assert(pf <= i - (fd - 1 - pf - c) < ix0);
                            if j == fd - 1 {
                                assert(le(r, s[i - (fd - 1 - pf - c)], s[ix0 - 1]));
                            } else {
                                assert(s1[j] == s[j - (fd - 1 - pf - c)]);
                                assert(lt(r, s[i - (fd - 1 - pf - c)], s[j - (fd - 1 - pf - c)]));
                            }
                        }
                    }
                    assert forall|k: int| f0 <= k < fd - 1 - c implies le(r, #[trigger] s1[k], s1[fd - 1]) by {
                        if k < pf {
                            assert(s1[k] == s[k]);
                            assert(le(r, s[k], s[ix0 - 1]));
                        } else {
                            assert(s1[k] == s[k + c]);
                            lemma_equal_flip(r, s[k + c], v);
                            lemma_equal_trans(r, s[k + c], s[fd - 1], v);
                        }
                    }
                    assert(sorted_between(s1, f0, fd - 1 - c, r)) by {
                        assert forall|i: int, j: int| f0 <= i <= j < fd - 1 - c implies le(r, #[trigger] s1[i], #[trigger] s1[j]) by {
                            if j < pf {
                                assert(s1[i] == s[i] && s1[j] == s[j]);
                            } else if i >= pf {
                                assert(s1[i] == s[i + c] && s1[j] == s[j + c]);
                                lemma_equal_trans(r, s[i + c], s[j + c], v);
                            } else {
                                assert(s1[i] == s[i] && s1[j] == s[j + c]);
                                assert(le(r, s[i], s[ix0 - 1]));
                                lemma_equal_flip(r, s[j + c], v);
                            }
                        }
                    }
                    assert forall|k: int| fd <= k < to implies lt(r, s1[fd - 1], #[trigger] s1[k]) by {
                        assert(s1[k] == s[k]);
                        assert(lt(r, v, s[k]));
                    }
                }
            }
            p.from = found - 1 - count;
            index = found;
            count += 1;
        }
        proof {
            if g {
                if index < to {
                    lemma_ends_pos(array@, ix(index), to, r);
                }
                assert(index == to);
            }
        }
    }
    p
}

/// Two items equivalent to a third are ordered both ways with it.
proof fn lemma_equal_flip<T>(r: spec_fn(T, T) -> Ordering, a: T, v: T)
    requires
        is_total_preorder(r),
        r(a, v) == Ordering::Equal,
    ensures
        r(v, a) == Ordering::Equal,
        le(r, a, v),
        le(r, v, a),
{
    assert(r(a, v) == Ordering::Less <==> r(v, a) == Ordering::Greater);
    assert(r(v, a) == Ordering::Less <==> r(a, v) == Ordering::Greater);
}

/// Putting the head of `bs` after the items of `s1`, all less than it, and
/// before those of `s2`, none less than it, is a step of merging `bs` into
/// `s1 + s2`.
proof fn lemma_insert_front<T>(bs: Seq<T>, s1: Seq<T>, s2: Seq<T>, r: spec_fn(T, T) -> Ordering)
    requires
        bs.len() > 0,
        forall|i: int| 0 <= i < s1.len() ==> lt(r, #[trigger] s1[i], bs[0]),
        s2.len() == 0 || !lt(r, s2[0], bs[0]),
    ensures
        merged(bs, s1 + s2, r) == s1 + seq![bs[0]] + merged(bs.drop_first(), s2, r),
{
    lemma_merge_take_b(bs, s1, s2, r);
    assert(bs =~= seq![bs[0]] + bs.drop_first());
    if s2.len() == 0 {
        lemma_merge_empty(bs, s2, r);
        lemma_merge_empty(bs.drop_first(), s2, r);
    } else {
        lemma_merge_take_a(seq![bs[0]], bs.drop_first(), s2, r);
    }
    assert(s1 + (seq![bs[0]] + merged(bs.drop_first(), s2, r)) =~= s1 + seq![bs[0]] + merged(bs.drop_first(), s2, r));
}

/// Putting the last item of a sorted `bs` after the items of `s1`, none
/// greater than it, and before those of `s2`, all greater than it, is a step
/// of merging `s1 + s2` with `bs`, from the back.
proof fn lemma_insert_back<T>(s1: Seq<T>, s2: Seq<T>, bs: Seq<T>, r: spec_fn(T, T) -> Ordering)
    requires
        is_total_preorder(r),
        bs.len() > 0,
        forall|i: int, j: int| 0 <= i <= j < bs.len() ==> le(r, #[trigger] bs[i], #[trigger] bs[j]),
        forall|i: int| 0 <= i < s2.len() ==> lt(r, bs[bs.len() - 1], #[trigger] s2[i]),
        forall|i: int| 0 <= i < s1.len() ==> !lt(r, bs[bs.len() - 1], #[trigger] s1[i]),
    ensures
        merged(s1 + s2, bs, r) == merged(s1, bs.drop_last(), r) + seq![bs[bs.len() - 1]] + s2,
{
    lemma_order_facts(r);
    let b = bs[bs.len() - 1];
    assert forall|i: int, j: int| 0 <= i < s2.len() && 0 <= j < bs.len() implies lt(r, #[trigger] bs[j], #[trigger] s2[i]) by {
        assert(le(r, bs[j], b));
    }
    lemma_merge_tail_a(s1, s2, bs, r);
    assert(bs =~= bs.drop_last() + seq![b]);
    lemma_merge_tail_b(s1, bs.drop_last(), seq![b], r);
}

/// Puts the values that `pull` gathered back among the items of its range,
/// each before (or after) the items equivalent to it: where the rest of the
/// range (and, gathered at the end, the values) are sorted, the range ends
/// as the stable merge of the two.
#[verifier::spinoff_prover]
#[verifier::rlimit(100)]
fn redistribute<T, F>(array: &mut [T], pull: Pull, cmp: &F)
    where
        F: Fn(&T, &T) -> Ordering,
    requires
        valid_comparator(*cmp),
        pull_ok(pull, len_of(old(array)@), len_of(old(array)@)),
        pull.count * 2 <= usize::MAX,
    ensures
        final(array)@.len() == old(array)@.len(),
        final(array)@.to_multiset() == old(array)@.to_multiset(),
        forall|k: int| 0 <= k < old(array)@.len() && !(pull.range_start <= k < pull.range_end)
            ==> #[trigger] final(array)@[k] == old(array)@[k],
        pull.from == pull.to ==> final(array)@ == old(array)@,
        pull.from > pull.to && sorted_between(old(array)@, pull.range_start + pull.count, ix(pull.range_end), chosen_order(*cmp))
            ==> final(array)@.subrange(ix(pull.range_start), ix(pull.range_end)) == merged(
                old(array)@.subrange(ix(pull.range_start), pull.range_start + pull.count),
                old(array)@.subrange(pull.range_start + pull.count, ix(pull.range_end)),
                chosen_order(*cmp),
            ),
        pull.from < pull.to && sorted_between(old(array)@, ix(pull.range_start), pull.range_end - pull.count, chosen_order(*cmp))
            && sorted_between(old(array)@, pull.range_end - pull.count, ix(pull.range_end), chosen_order(*cmp))
            ==> final(array)@.subrange(ix(pull.range_start), ix(pull.range_end)) == merged(
                old(array)@.subrange(ix(pull.range_start), pull.range_end - pull.count),
                old(array)@.subrange(pull.range_end - pull.count, ix(pull.range_end)),
                chosen_order(*cmp),
            ),
{
    let ghost s0 = array@;
    let ghost r = chosen_order(*cmp);
    let ghost rs = ix(pull.range_start);
    let ghost re = ix(pull.range_end);
    let n = array.len();
    let c = pull.count;
    proof {
        lemma2_to64();
        lemma_usize_shl_is_mul(c, 1);
        lemma_order_facts(r);
    }
    let mut unique = c << 1;
    if pull.from > pull.to {
        let ghost b0 = s0.subrange(rs, rs + c);
        let ghost t0 = s0.subrange(rs + c, re);
        let ghost g = sorted_between(s0, rs + c, re, r);
        let ghost target = merged(b0, t0, r);
        let mut buffer = pull.range_start..pull.range_start + pull.count;
        proof {
            assert(b0.subrange(0, ix(c)) =~= b0);
            assert(t0.subrange(0, re - rs - c) =~= t0);
            assert(s0.subrange(rs, rs) + target =~= target);
        }
        while range_len(&buffer) > 0
            invariant
                valid_comparator(*cmp),
                r == chosen_order(*cmp),
                is_total_preorder(r),
                n == array@.len(),
                array@.len() == s0.len(),
                array@.to_multiset() == s0.to_multiset(),
                pull_ok(pull, len_of(s0), len_of(s0)),
                pull.from > pull.to,
                rs == pull.range_start,
                re == pull.range_end,
                c == pull.count,
                rs <= buffer.start <= buffer.end <= pull.range_end,
                rs + c <= buffer.end,
                buffer.end - buffer.start <= c,
                unique == 2 * (buffer.end - buffer.start),
                forall|k: int| 0 <= k < n && !(rs <= k < re) ==> #[trigger] array@[k] == s0[k],
                b0 == s0.subrange(rs, rs + c),
                t0 == s0.subrange(rs + c, re),
                g == sorted_between(s0, rs + c, re, r),
                target == merged(b0, t0, r),
                g ==> {
                    &&& array@.subrange(ix(buffer.start), ix(buffer.end)) == b0.subrange(c - (buffer.end - buffer.start), ix(c))
                    &&& array@.subrange(ix(buffer.end), re) == t0.subrange(buffer.end - rs - c, re - rs - c)
                    &&& array@.subrange(rs, ix(buffer.start)) + merged(b0.subrange(c - (buffer.end - buffer.start), ix(c)),
                        t0.subrange(buffer.end - rs - c, re - rs - c), r) == target
                },
            decreases buffer.end - buffer.start,
        {
            let ghost s = array@;
            let ghost bs = b0.subrange(c - (buffer.end - buffer.start), ix(c));
            let ghost ts = t0.subrange(buffer.end - rs - c, re - rs - c);
            proof {
                if g {
                    assert(bs[0] == s[ix(buffer.start)]) by {
                        assert(s.subrange(ix(buffer.start), ix(buffer.end))[0] == s[ix(buffer.start)]);
                    }
                    assert forall|i: int| buffer.end <= i < re implies #[trigger] s[i] == ts[i - buffer.end] by {
                        assert(s.subrange(ix(buffer.end), re)[i - buffer.end] == s[i]);
                    }
                    assert(sorted_between(s, ix(buffer.end), re, r)) by {
                        assert forall|i: int, j: int| buffer.end <= i <= j < re implies le(r, #[trigger] s[i], #[trigger] s[j]) by {
                            assert(s[i] == s0[i - buffer.end + buffer.end - rs - c + rs + c]);
                            assert(s[j] == s0[j - buffer.end + buffer.end - rs - c + rs + c]);
                        }
                    }
                }
            }
            let index = find_first_forward(array, &array[buffer.start], buffer.end..pull.range_end, cmp, unique);
            let amount = index - buffer.end;
            let blen = range_len(&buffer);
            rotate(array, blen, buffer.start..index);
            proof {
                if g {
                    let s1 = array@;
                    let t1 = ts.subrange(0, ix(amount));
                    let t2 = ts.subrange(ix(amount), len_of(ts));
                    assert(ts =~= t1 + t2);
                    assert forall|i: int| 0 <= i < t1.len() implies lt(r, #[trigger] t1[i], bs[0]) by {
                        assert(t1[i] == s[buffer.end + i]);
                    }
                    if t2.len() > 0 {
                        assert(t2[0] == s[ix(index)]);
                    }
                    lemma_insert_front(bs, t1, t2, r);
                    assert(s1.subrange(rs, buffer.start + amount + 1) =~= s.subrange(rs, ix(buffer.start)) + t1 + seq![bs[0]]) by {
                        assert forall|i: int| buffer.start <= i < buffer.start + amount implies #[trigger] s1[i] == t1[i - buffer.start] by {
                            assert(s1[i] == s[i + blen]);
                        }
                        assert(s1[buffer.start + amount] == s[ix(buffer.start)]);
                    }
                    assert(s1.subrange(buffer.start + amount + 1, ix(index)) =~= bs.drop_first()) by {
                        assert forall|i: int| buffer.start + amount + 1 <= i < index implies #[trigger] s1[i] == bs.drop_first()[i - buffer.start - amount - 1] by {
                            assert(s1[i] == s[i - amount]);
                            assert(s.subrange(ix(buffer.start), ix(buffer.end))[i - amount - buffer.start] == s[i - amount]);
                        }
                    }
                    assert(s1.subrange(ix(index), re) =~= t2) by {
                        assert forall|i: int| index <= i < re implies #[trigger] s1[i] == t2[i - index] by {
                            assert(s1[i] == s[i]);
                        }
                    }
                    assert(bs.drop_first() =~= b0.subrange(c - (buffer.end - buffer.start) + 1, ix(c)));
                    assert(t2 =~= t0.subrange(index - rs - c, re - rs - c));
                    assert(s1.subrange(rs, buffer.start + amount + 1) + merged(bs.drop_first(), t2, r)
                        =~= s.subrange(rs, ix(buffer.start)) + merged(bs, ts, r));
                }
            }
            buffer.start += amount + 1;
            buffer.end += amount;
            unique -= 2;
        }
        proof {
            if g {
                let ts = t0.subrange(buffer.end - rs - c, re - rs - c);
                lemma_merge_empty(b0.subrange(ix(c), ix(c)), ts, r);
                assert(array@.subrange(rs, re) =~= array@.subrange(rs, ix(buffer.end)) + array@.subrange(ix(buffer.end), re));
            }
        }
    } else if pull.from < pull.to {
        let ghost t0 = s0.subrange(rs, re - c);
        let ghost b0 = s0.subrange(re - c, re);
        let ghost g = sorted_between(s0, rs, re - c, r) && sorted_between(s0, re - c, re, r);
        let ghost target = merged(t0, b0, r);
        let mut buffer = pull.range_end - pull.count..pull.range_end;
        proof {
            assert(b0.subrange(0, ix(c)) =~= b0);
            assert(t0.subrange(0, re - c - rs) =~= t0);
            assert(target + s0.subrange(re, re) =~= target);
        }
        while range_len(&buffer) > 0
            invariant
                valid_comparator(*cmp),
                r == chosen_order(*cmp),
                is_total_preorder(r),
                n == array@.len(),
                array@.len() == s0.len(),
                array@.to_multiset() == s0.to_multiset(),
                pull_ok(pull, len_of(s0), len_of(s0)),
                pull.from < pull.to,
                rs == pull.range_start,
                re == pull.range_end,
                c == pull.count,
                pull.range_start <= buffer.start <= buffer.end <= n,
                buffer.start <= re - c,
                buffer.end - buffer.start <= c,
                buffer.end <= re,
                unique == 2 * (buffer.end - buffer.start),
                forall|k: int| 0 <= k < n && !(rs <= k < re) ==> #[trigger] array@[k] == s0[k],
                t0 == s0.subrange(rs, re - c),
                b0 == s0.subrange(re - c, re),
                g == (sorted_between(s0, rs, re - c, r) && sorted_between(s0, re - c, re, r)),
                target == merged(t0, b0, r),
                g ==> {
                    &&& array@.subrange(ix(buffer.start), ix(buffer.end)) == b0.subrange(0, buffer.end - buffer.start)
                    &&& array@.subrange(rs, ix(buffer.start)) == t0.subrange(0, buffer.start - rs)
                    &&& merged(t0.subrange(0, buffer.start - rs), b0.subrange(0, buffer.end - buffer.start), r)
                        + array@.subrange(ix(buffer.end), re) == target
                },
            decreases buffer.end - buffer.start,
        {
            let ghost s = array@;
            let ghost bs = b0.subrange(0, buffer.end - buffer.start);
            let ghost ts = t0.subrange(0, buffer.start - rs);
            proof {
                if g {
                    assert(bs[bs.len() - 1] == s[buffer.end - 1]) by {
                        assert(s.subrange(ix(buffer.start), ix(buffer.end))[buffer.end - buffer.start - 1] == s[buffer.end - 1]);
                    }
                    assert forall|i: int| rs <= i < buffer.start implies #[trigger] s[i] == ts[i - rs] by {
                        assert(s.subrange(rs, ix(buffer.start))[i - rs] == s[i]);
                    }
                    assert(sorted_between(s, rs, ix(buffer.start), r)) by {
                        assert forall|i: int, j: int| rs <= i <= j < buffer.start implies le(r, #[trigger] s[i], #[trigger] s[j]) by {
                            assert(s[i] == s0[i] && s[j] == s0[j]);
                        }
                    }
                }
            }
            let index = find_last_backward(array, &array[buffer.end - 1], pull.range_start..buffer.start, cmp, unique);
            let amount = buffer.start - index;
            rotate(array, amount, index..buffer.end);
            proof {
                if g {
                    let s1 = array@;
                    let blen = buffer.end - buffer.start;
                    let t1 = ts.subrange(0, index - rs);
                    let t2 = ts.subrange(index - rs, len_of(ts));
                    assert(ts =~= t1 + t2);
                    assert forall|i: int| 0 <= i < t1.len() implies !lt(r, bs[bs.len() - 1], #[trigger] t1[i]) by {
                        assert(t1[i] == s[rs + i]);
                    }
                    assert forall|i: int| 0 <= i < t2.len() implies lt(r, bs[bs.len() - 1], #[trigger] t2[i]) by {
                        assert(t2[i] == s[index + i]);
                    }
                    assert forall|i: int, j: int| 0 <= i <= j < bs.len() implies le(r, #[trigger] bs[i], #[trigger] bs[j]) by {
                        assert(bs[i] == s0[re - c + i] && bs[j] == s0[re - c + j]);
                    }
                    lemma_insert_back(t1, t2, bs, r);
                    assert(s1.subrange(ix(index), index + blen - 1) =~= bs.drop_last()) by {
                        assert forall|i: int| index <= i < index + blen - 1 implies #[trigger] s1[i] == bs.drop_last()[i - index] by {
                            assert(s1[i] == s[i + amount]);
                            assert(s.subrange(ix(buffer.start), ix(buffer.end))[i - index] == s[i + amount]);
                        }
                    }
                    assert(s1.subrange(index + blen - 1, re) =~= seq![bs[bs.len() - 1]] + t2 + s.subrange(ix(buffer.end), re)) by {
                        assert forall|i: int| index + blen <= i < buffer.end implies #[trigger] s1[i] == t2[i - index - blen] by {
                            assert(s1[i] == s[i - blen]);
                        }
                        assert(s1[index + blen - 1] == s[buffer.end - 1]);
                        assert forall|i: int| buffer.end <= i < re implies #[trigger] s1[i] == s[i] by {}
                    }
                    assert(s1.subrange(rs, ix(index)) =~= t1) by {
                        assert forall|i: int| rs <= i < index implies #[trigger] s1[i] == t1[i - rs] by {
                            assert(s1[i] == s[i]);
                        }
                    }
                    assert(bs.drop_last() =~= b0.subrange(0, blen - 1));
                    assert(t1 =~= t0.subrange(0, index - rs));
                    assert(merged(t1, bs.drop_last(), r) + s1.subrange(index + blen - 1, re)
                        =~= merged(ts, bs, r) + s.subrange(ix(buffer.end), re));
                }
            }
            buffer.start -= amount;
            buffer.end -= amount + 1;
            unique -= 2;
        }
        proof {
            if g {
                let ts = t0.subrange(0, buffer.start - rs);
                lemma_merge_empty(ts, b0.subrange(0, 0), r);
                assert(array@.subrange(rs, re) =~= array@.subrange(rs, ix(buffer.start)) + array@.subrange(ix(buffer.end), re));
            }
        }
    }
}

/// Merges the adjacent ranges `a` and `b` block by block: the blocks of `a`
/// (after a first, shorter block) are tagged with items of `buffer1` and
/// rolled through `b`; whenever the smallest remaining block of `a` must come
/// next, the previous block of `a` is merged with the items of `b` that
/// precede it, through `buffer2` when there is one and in place otherwise.
fn merge_blocks<T, F>(
    array: &mut [T],
    a: Range<usize>,
    b: Range<usize>,
    buffer1: Range<usize>,
    buffer2: Range<usize>,
    block_size: usize,
    cmp: &F,
)
    where
        F: Fn(&T, &T) -> Ordering,
    requires
        valid_comparator(*cmp),
        a.start < a.end,
        a.end == b.start,
        b.start < b.end,
        b.end <= old(array)@.len(),
        block_size >= 1,
        buffer1.start <= buffer1.end <= old(array)@.len(),
        (a.end - a.start) / ix(block_size) <= buffer1.end - buffer1.start,
        buffer2.start <= buffer2.end <= old(array)@.len(),
        buffer2.start < buffer2.end ==> block_size <= buffer2.end - buffer2.start,
    ensures
        final(array)@.len() == old(array)@.len(),
        final(array)@.to_multiset() == old(array)@.to_multiset(),
{
    let ghost s0 = array@;
    let n = array.len();
    let alen = a.end - a.start;
    let ghost q: int = ix(alen) / ix(block_size);
    let ghost buf1_len = buffer1.end - buffer1.start;
    let has_buffer2 = buffer2.start < buffer2.end;
    let mut block_a_start = a.start;
    let mut block_a_end = a.end;
    let first_a_start = a.start;
    proof {
        assert(alen % block_size <= alen) by (nonlinear_arith)
            requires block_size >= 1;
    }
    let first_a_end = a.start + alen % block_size;
    proof {
        assert(alen == q * block_size + alen % block_size) by (nonlinear_arith)
            requires q == alen / block_size, block_size >= 1;
    }

    // Tag each full block of `a` by exchanging its first item with an item
    // of the first buffer.
    let mut index_a = buffer1.start;
    let mut index = first_a_end;
    let ghost mut k: int = 0;
    while index < block_a_end
        invariant
            n == array@.len(),
            array@.len() == s0.len(),
            array@.to_multiset() == s0.to_multiset(),
            block_a_end == a.end,
            a.end <= n,
            block_size >= 1,
            0 <= k <= q,
            index == first_a_end + k * block_size,
            block_a_end == first_a_end + q * block_size,
            index_a == buffer1.start + k,
            buffer1.start + q <= buffer1.end <= n,
        decreases block_a_end - index,
    {
        proof {
            assert(k < q) by (nonlinear_arith)
                requires first_a_end + k * block_size < first_a_end + q * block_size, block_size >= 1;
            assert(index + block_size <= block_a_end) by (nonlinear_arith)
                requires k + 1 <= q, block_size >= 1, index == first_a_end + k * block_size,
                    block_a_end == first_a_end + q * block_size;
            lemma_swapped_multiset(array@, ix(index_a), ix(index));
        }
        swap_items(array, index_a, index);
        index_a += 1;
        index += block_size;
        proof {
            k = k + 1;
            assert(index == first_a_end + k * block_size) by (nonlinear_arith)
                requires index == first_a_end + (k - 1) * block_size + block_size;
        }
    }

    let mut last_a_start = first_a_start;
    let mut last_a_end = first_a_end;
    let mut last_b_start: usize = 0;
    let mut last_b_end: usize = 0;
    let b_len = b.end - b.start;
    let mut block_b_start = b.start;
    let mut block_b_end = b.start + if block_size < b_len { block_size } else { b_len };
    block_a_start += first_a_end - first_a_start;
    index_a = buffer1.start;

    if has_buffer2 {
        block_swap(array, last_a_start, buffer2.start, last_a_end - last_a_start);
    }

    let ghost mut qa: int = q;
    let ghost mut started = false;
    if block_a_start < block_a_end {
        loop
            invariant_except_break
                block_a_start < block_a_end,
                qa >= 1,
            invariant
                valid_comparator(*cmp),
                n == array@.len(),
                array@.len() == s0.len(),
                array@.to_multiset() == s0.to_multiset(),
                b.end <= n,
                block_size >= 1,
                has_buffer2 == (buffer2.start < buffer2.end),
                buffer2.end <= n,
                has_buffer2 ==> block_size <= buffer2.end - buffer2.start,
                buffer1.end <= n,
                buffer1.start <= index_a,
                index_a + qa <= buffer1.start + q,
                buffer1.start + q <= buffer1.end,
                a.start <= last_a_start <= last_a_end <= block_a_start <= block_a_end <= b.end,
                last_a_end - last_a_start <= block_size,
                qa >= 0,
                block_a_end - block_a_start == qa * block_size,
                block_b_start <= block_b_end <= b.end,
                block_b_end - block_b_start <= block_size,
                block_b_start < block_b_end ==> block_a_end == block_b_start,
                started ==> last_a_end <= last_b_start <= last_b_end && last_b_end == block_a_start && block_a_start >= 1,
                !started ==> last_b_start == 0 && last_b_end == 0 && block_b_start < block_b_end && last_a_end == block_a_start,
            decreases b.end - block_a_start,
        {
            let mut take_a = false;
            if last_b_start < last_b_end {
                let o = cmp(&array[last_b_end - 1], &array[index_a]);
                take_a = match o {
                    Ordering::Less => false,
                    _ => true,
                };
            }
            if !take_a {
                take_a = block_b_start == block_b_end;
            }
            if take_a {
                // The smallest remaining block of `a` goes next: merge the
                // previous block of `a` with the items of `b` before it.
                let b_split = binary_first(array, &array[index_a], last_b_start..last_b_end, cmp);
                let b_remaining = last_b_end - b_split;

                proof {
                    assert(block_size <= block_a_end - block_a_start) by (nonlinear_arith)
                        requires qa >= 1, block_a_end - block_a_start == qa * block_size, block_size >= 1;
                }
                let mut min_a = block_a_start;
                let mut find_a = min_a + block_size;
                proof {
                    assert(find_a == block_a_start + 1 * block_size);
                    assert(min_a == block_a_start + 0 * block_size);
                }
                let ghost mut j: int = 1;
                let ghost mut m: int = 0;
                while find_a < block_a_end
                    invariant
                        valid_comparator(*cmp),
                        n == array@.len(),
                        block_a_end <= n,
                        block_size >= 1,
                        block_a_end - block_a_start == qa * block_size,
                        qa >= 1,
                        1 <= j <= qa,
                        0 <= m < j,
                        find_a == block_a_start + j * block_size,
                        min_a == block_a_start + m * block_size,
                    decreases block_a_end - find_a,
                {
                    proof {
                        assert(j < qa) by (nonlinear_arith)
                            requires block_a_start + j * block_size < block_a_start + qa * block_size, block_size >= 1;
                        assert(find_a + block_size <= block_a_end) by (nonlinear_arith)
                            requires j + 1 <= qa, block_size >= 1, find_a == block_a_start + j * block_size,
                                block_a_end - block_a_start == qa * block_size;
                        assert(min_a < block_a_end) by (nonlinear_arith)
                            requires m < qa, block_size >= 1, min_a == block_a_start + m * block_size,
                                block_a_end - block_a_start == qa * block_size;
                    }
                    let o = cmp(&array[find_a], &array[min_a]);
                    match o {
                        Ordering::Less => {
                            min_a = find_a;
                            proof {
                                m = j;
                            }
                        },
                        _ => {},
                    }
                    find_a += block_size;
                    proof {
                        j = j + 1;
                        assert(find_a == block_a_start + j * block_size) by (nonlinear_arith)
                            requires find_a == block_a_start + (j - 1) * block_size + block_size;
                    }
                }
                proof {
                    assert(min_a + block_size <= block_a_end) by (nonlinear_arith)
                        requires min_a == block_a_start + m * block_size, m + 1 <= qa,
                            block_a_end - block_a_start == qa * block_size, block_size >= 1;
                    assert(block_size <= block_a_end - block_a_start) by (nonlinear_arith)
                        requires qa >= 1, block_a_end - block_a_start == qa * block_size, block_size >= 1;
                }

                // Move the smallest block of `a` to the front, untag it.
                block_swap(array, block_a_start, min_a, block_size);
                proof {
                    lemma_swapped_multiset(array@, ix(block_a_start), ix(index_a));
                }
                swap_items(array, block_a_start, index_a);
                index_a += 1;

                if has_buffer2 {
                    merge_internal(array, last_a_start..last_a_end, last_a_end..b_split, cmp, buffer2.start..buffer2.end);
                } else {
                    merge_in_place(array, last_a_start..last_a_end, last_a_end..b_split, cmp);
                }

                if has_buffer2 {
                    block_swap(array, block_a_start, buffer2.start, block_size);
                    block_swap(array, b_split, block_a_start + block_size - b_remaining, b_remaining);
                } else {
                    rotate(array, block_a_start - b_split, b_split..block_a_start + block_size);
                }

                last_a_start = block_a_start - b_remaining;
                last_a_end = block_a_start - b_remaining + block_size;
                last_b_start = last_a_end;
                last_b_end = last_a_end + b_remaining;

                block_a_start += block_size;
                proof {
                    qa = qa - 1;
                    started = true;
                    assert(block_a_end - block_a_start == qa * block_size) by (nonlinear_arith)
                        requires block_a_end - (block_a_start - block_size) == (qa + 1) * block_size;
                }
                if block_a_start >= block_a_end {
                    break;
                }
            } else if block_b_end - block_b_start < block_size {
                // The rest of `b` is shorter than a block: roll it in front
                // of the blocks of `a`.
                rotate(array, block_b_start - block_a_start, block_a_start..block_b_end);
                let bl = block_b_end - block_b_start;
                last_b_start = block_a_start;
                last_b_end = block_a_start + bl;
                block_a_start += bl;
                block_a_end += bl;
                block_b_end = block_b_start;
                proof {
                    started = true;
                }
            } else {
                // Roll the first block of `a` past the next block of `b`.
                block_swap(array, block_a_start, block_b_start, block_size);
                last_b_start = block_a_start;
                last_b_end = block_a_start + block_size;
                block_a_start += block_size;
                block_a_end += block_size;
                block_b_start += block_size;
                if block_b_end > b.end - block_size {
                    block_b_end = b.end;
                } else {
                    block_b_end += block_size;
                }
                proof {
                    started = true;
                }
            }
        }
    }

    if has_buffer2 {
        merge_internal(array, last_a_start..last_a_end, last_a_end..b.end, cmp, buffer2.start..buffer2.end);
    } else {
        merge_in_place(array, last_a_start..last_a_end, last_a_end..b.end, cmp);
    }
}

/// Looks through the pairs of ranges of the level for runs of distinct values
/// to serve as internal buffers: `buffer_size` values for the block tags and,
/// when they can be found, as many again for merging. Records in the two
/// pulls where the runs were found and where they are to be gathered.
fn find_buffers<T, F>(array: &[T], iterator: &mut WikiIterator, buffer_size: usize, cmp: &F)
    -> (res: (Range<usize>, Range<usize>, Pull, Pull))
    where
        F: Fn(&T, &T) -> Ordering,
    requires
        valid_comparator(*cmp),
        old(iterator).wf(),
        old(iterator).ranges() >= 2,
        old(iterator).size_spec() == array@.len(),
        buffer_size >= 1,
        buffer_size * 4 <= usize::MAX,
    ensures
        final(iterator).wf(),
        final(iterator).size_spec() == old(iterator).size_spec(),
        final(iterator).ranges() == old(iterator).ranges(),
        final(iterator).decimal_step_spec() == old(iterator).decimal_step_spec(),
        res.0.start < res.0.end <= array@.len(),
        res.1.start <= res.1.end <= array@.len(),
        res.1.start == res.1.end ==> res.1.start == 0,
        res.1.start < res.1.end ==> res.0.end - res.0.start >= buffer_size && res.1.end - res.1.start >= buffer_size,
        pull_ok(res.2, len_of(array@), int_of(old(iterator).decimal_step_spec() + 1)),
        pull_ok(res.3, len_of(array@), int_of(old(iterator).decimal_step_spec() + 1)),
        res.2.count <= 2 * buffer_size,
        res.3.count <= 2 * buffer_size,
{
    let ghost n = array@.len();
    let ghost ds = iterator.decimal_step_spec();
    let ghost r0 = iterator.ranges();
    proof {
        iterator.lemma_ranges_even();
        lemma2_to64();
        lemma_usize_shl_is_mul(buffer_size, 1);
    }
    let double = buffer_size << 1;
    let mut buffer1: Range<usize> = 0..0;
    let mut buffer2: Range<usize> = 0..0;
    let mut pull_index: usize = 0;
    let mut pull0 = Pull { from: 0, to: 0, count: 0, range_start: 0, range_end: 0 };
    let mut pull1 = Pull { from: 0, to: 0, count: 0, range_start: 0, range_end: 0 };
    let mut find = double;
    let mut find_separately = false;
    if find > iterator.len() {
        find = buffer_size;
        find_separately = true;
    }
    iterator.begin();
    loop
        invariant_except_break
            buffer2.start == 0 && buffer2.end == 0,
        invariant
            valid_comparator(*cmp),
            iterator.positioned(),
            iterator.size_spec() == n,
            iterator.ranges() == r0,
            iterator.decimal_step_spec() == ds,
            r0 % 2 == 0,
            r0 >= 2,
            n == array@.len(),
            iterator.consumed() % 2 == 0,
            buffer_size >= 1,
            buffer_size * 4 <= usize::MAX,
            double == 2 * buffer_size,
            find == buffer_size || find == double,
            pull_index <= 1,
            find == buffer_size && !find_separately ==> pull_index == 1,
            pull_index == 1 ==> buffer1.end - buffer1.start >= buffer_size,
            buffer1.start <= buffer1.end <= n,
            buffer2.start <= buffer2.end <= n,
            buffer2.start < buffer2.end ==> buffer1.end - buffer1.start >= buffer_size
                && buffer2.end - buffer2.start >= buffer_size,
            iterator.consumed() == 0 ==> pull_index == 0 && buffer1.start == buffer1.end,
            iterator.consumed() > 0 ==> buffer1.start < buffer1.end,
            iterator.consumed() > 0 ==> pull0.range_start < pull0.range_end <= iterator.decimal_spec(),
            pull_ok(pull0, len_of(array@), int_of(ds + 1)),
            pull_ok(pull1, len_of(array@), int_of(ds + 1)),
            pull0.count <= double,
            pull1.count <= double,
        ensures
            buffer1.start < buffer1.end,
            buffer2.start == buffer2.end ==> buffer2.start == 0,
        decreases r0 - iterator.consumed(),
    {
        proof {
            iterator.lemma_positioned();
        }
        if iterator.finished() {
            break;
        }
        let a = iterator.next_range();
        proof {
            iterator.lemma_positioned();
        }
        let b = iterator.next_range();
        let ghost consumed_before = iterator.consumed() - 2;
        assert(a.end <= n);
        assert(b.end <= n);

        // Look for distinct values at the start of `a`.
        let mut last = a.start;
        let mut count: usize = 1;
        loop
            invariant
                valid_comparator(*cmp),
                a.start <= last < a.end,
                a.end <= array@.len(),
                1 <= count <= find,
                count <= last - a.start + 1,
            decreases find - count,
        {
            if count >= find {
                break;
            }
            let index = find_last_forward(array, &array[last], last + 1..a.end, cmp, find - count);
            if index == a.end {
                break;
            }
            last = index;
            count += 1;
        }
        let ghost mut set_in_a = false;
        if count >= buffer_size {
            let p = Pull { from: last, to: a.start, count, range_start: a.start, range_end: b.end };
            if pull_index == 0 {
                pull0 = p;
                proof {
                    set_in_a = true;
                }
            } else {
                pull1 = p;
            }
            pull_index = 1;
            if count == double {
                buffer1 = a.start..a.start + buffer_size;
                buffer2 = a.start + buffer_size..a.start + count;
                break;
            } else if find == double {
                buffer1 = a.start..a.start + count;
                find = buffer_size;
            } else if find_separately {
                buffer1 = a.start..a.start + count;
                find_separately = false;
            } else {
                buffer2 = a.start..a.start + count;
                break;
            }
        } else if pull_index == 0 && count > buffer1.end - buffer1.start {
            buffer1 = a.start..a.start + count;
            pull0 = Pull { from: last, to: a.start, count, range_start: a.start, range_end: b.end };
            proof {
                set_in_a = true;
            }
        }
        proof {
            if !set_in_a {
                assert(consumed_before > 0);
                assert(pull0.range_start < a.start);
            } else {
                assert(pull0.range_start == a.start && pull0.range_end == b.end && pull0.to == a.start);
                assert(pull0.from < a.end && pull0.count <= a.end - a.start);
            }
        }

        // Look for distinct values at the end of `b`.
        let mut last = b.end - 1;
        let mut count: usize = 1;
        loop
            invariant
                valid_comparator(*cmp),
                b.start <= last < b.end,
                b.end <= array@.len(),
                1 <= count <= find,
                count <= b.end - last,
            decreases find - count,
        {
            if count >= find {
                break;
            }
            let index = find_first_backward(array, &array[last], b.start..last, cmp, find - count);
            if index == b.start {
                break;
            }
            last = index - 1;
            count += 1;
        }
        if count >= buffer_size {
            let p = Pull { from: last, to: b.end, count, range_start: a.start, range_end: b.end };
            if pull_index == 0 {
                pull0 = p;
            } else {
                pull1 = p;
            }
            pull_index = 1;
            if count == double {
                buffer1 = b.end - count..b.end - buffer_size;
                buffer2 = b.end - buffer_size..b.end;
                break;
            } else if find == double {
                buffer1 = b.end - count..b.end;
                find = buffer_size;
            } else if find_separately {
                buffer1 = b.end - count..b.end;
                find_separately = false;
            } else {
                if pull0.range_start == a.start {
                    pull0.range_end = pull0.range_end - pull1.count;
                }
                buffer2 = b.end - count..b.end;
                break;
            }
        } else if pull_index == 0 && count > buffer1.end - buffer1.start {
            buffer1 = b.end - count..b.end;
            pull0 = Pull { from: last, to: b.end, count, range_start: a.start, range_end: b.end };
        }
    }
    proof {
        iterator.lemma_positioned();
    }
    (buffer1, buffer2, pull0, pull1)
}

/// Merges each pair of ranges of the level, leaving out the values gathered
/// into the internal buffers.
fn merge_pairs<T, F>(
    array: &mut [T],
    iterator: &mut WikiIterator,
    buffer1: Range<usize>,
    buffer2: Range<usize>,
    pull0: Pull,
    pull1: Pull,
    block_size: usize,
    cmp: &F,
)
    where
        F: Fn(&T, &T) -> Ordering,
    requires
        valid_comparator(*cmp),
        old(iterator).wf(),
        old(iterator).ranges() >= 2,
        old(iterator).size_spec() == old(array)@.len(),
        pull_ok(pull0, len_of(old(array)@), int_of(old(iterator).decimal_step_spec() + 1)),
        pull_ok(pull1, len_of(old(array)@), int_of(old(iterator).decimal_step_spec() + 1)),
        block_size >= 1,
        buffer1.start <= buffer1.end <= old(array)@.len(),
        int_of(old(iterator).decimal_step_spec() + 1) / ix(block_size) <= buffer1.end - buffer1.start,
        buffer2.start <= buffer2.end <= old(array)@.len(),
        buffer2.start < buffer2.end ==> block_size <= buffer2.end - buffer2.start,
    ensures
        final(array)@.len() == old(array)@.len(),
        final(array)@.to_multiset() == old(array)@.to_multiset(),
        final(iterator).wf(),
        final(iterator).size_spec() == old(iterator).size_spec(),
        final(iterator).ranges() == old(iterator).ranges(),
        final(iterator).decimal_step_spec() == old(iterator).decimal_step_spec(),
{
    let ghost s0 = array@;
    let ghost n = array@.len();
    let ghost ds = iterator.decimal_step_spec();
    let ghost r0 = iterator.ranges();
    proof {
        iterator.lemma_ranges_even();
        iterator.lemma_level_bounds();
    }
    iterator.begin();
    loop
        invariant
            valid_comparator(*cmp),
            iterator.positioned(),
            iterator.size_spec() == n,
            iterator.ranges() == r0,
            iterator.decimal_step_spec() == ds,
            ds >= 1,
            r0 % 2 == 0,
            iterator.consumed() % 2 == 0,
            n == array@.len(),
            array@.to_multiset() == s0.to_multiset(),
            pull_ok(pull0, len_of(s0), int_of(ds + 1)),
            pull_ok(pull1, len_of(s0), int_of(ds + 1)),
            block_size >= 1,
            buffer1.start <= buffer1.end <= n,
            int_of(ds + 1) / ix(block_size) <= buffer1.end - buffer1.start,
            buffer2.start <= buffer2.end <= n,
            buffer2.start < buffer2.end ==> block_size <= buffer2.end - buffer2.start,
        decreases r0 - iterator.consumed(),
    {
        proof {
            iterator.lemma_positioned();
        }
        if iterator.finished() {
            break;
        }
        let mut a = iterator.next_range();
        proof {
            iterator.lemma_positioned();
        }
        let mut b = iterator.next_range();
        let ghost a_len = a.end - a.start;
        assert(a.end - a.start >= ds && b.end - b.start >= ds);

        let start = a.start;
        if start == pull0.range_start {
            if pull0.from > pull0.to {
                a.start += pull0.count;
                if range_len(&a) == 0 {
                    continue;
                }
            } else if pull0.from < pull0.to {
                b.end -= pull0.count;
                if range_len(&b) == 0 {
                    continue;
                }
            }
        }
        if start == pull1.range_start {
            if pull1.from > pull1.to {
                a.start += pull1.count;
                if range_len(&a) == 0 {
                    continue;
                }
            } else if pull1.from < pull1.to {
                b.end -= pull1.count;
                if range_len(&b) == 0 {
                    continue;
                }
            }
        }

        let o = cmp(&array[b.end - 1], &array[a.start]);
        let reversed = match o {
            Ordering::Less => true,
            _ => false,
        };
        if reversed {
            // Every item of `b` is less than every item of `a`.
            let alen = a.end - a.start;
            rotate(array, alen, a.start..b.end);
        } else {
            let o2 = cmp(&array[a.end], &array[a.end - 1]);
            let unordered = match o2 {
                Ordering::Less => true,
                _ => false,
            };
            if unordered {
                proof {
                    assert((a.end - a.start) / ix(block_size) <= int_of(ds + 1) / ix(block_size)) by (nonlinear_arith)
                        requires a.end - a.start <= ds + 1, block_size >= 1;
                }
                merge_blocks(array, a, b, buffer1.start..buffer1.end, buffer2.start..buffer2.end, block_size, cmp);
            }
        }
    }
    proof {
        iterator.lemma_positioned();
    }
}

/// Merges every pair of ranges of one level of the sort.
fn merge_level<T, F>(array: &mut [T], iterator: &mut WikiIterator, cmp: &F)
    where
        F: Fn(&T, &T) -> Ordering,
    requires
        valid_comparator(*cmp),
        old(iterator).wf(),
        old(iterator).ranges() >= 2,
        old(iterator).decimal_step_spec() >= 4,
        old(iterator).size_spec() == old(array)@.len(),
    ensures
        final(array)@.len() == old(array)@.len(),
        final(array)@.to_multiset() == old(array)@.to_multiset(),
        final(iterator).wf(),
        final(iterator).size_spec() == old(iterator).size_spec(),
        final(iterator).ranges() == old(iterator).ranges(),
        final(iterator).decimal_step_spec() == old(iterator).decimal_step_spec(),
{
    let ghost s0 = array@;
    let n = array.len();
    proof {
        iterator.lemma_level_bounds();
    }
    let ds = iterator.len();
    let block_size = integer_sqrt(ds);
    proof {
        if block_size < 2 {
            assert((block_size + 1) * (block_size + 1) <= 4) by (nonlinear_arith)
                requires block_size < 2;
        }
        assert(ds / block_size <= block_size + 2) by (nonlinear_arith)
            requires ds < (block_size + 1) * (block_size + 1), block_size >= 2;
        assert(4 * block_size <= block_size * block_size + 4) by (nonlinear_arith);
        assert(2 * ds <= n) by (nonlinear_arith)
            requires ds * iterator.ranges() <= n, iterator.ranges() >= 2;
    }
    let buffer_size = ds / block_size + 1;
    let (buffer1, buffer2, pull0, pull1) = find_buffers(array, iterator, buffer_size, cmp);
    let pull0 = pull_out(array, pull0, cmp);
    let pull1 = pull_out(array, pull1, cmp);

    let buffer_size2 = buffer1.end - buffer1.start;
    let block_size2 = ds / buffer_size2 + 1;
    proof {
        assert((ds + 1) / ix(block_size2) <= buffer_size2) by (nonlinear_arith)
            requires block_size2 == ds / buffer_size2 + 1, buffer_size2 >= 1;
        if buffer2.start < buffer2.end {
            assert(buffer_size * block_size > ds) by (nonlinear_arith)
                requires buffer_size == ds / block_size + 1, block_size >= 1;
            assert(buffer_size >= block_size + 1) by (nonlinear_arith)
                requires buffer_size == ds / block_size + 1, block_size * block_size <= ds, block_size >= 1;
            assert(buffer_size * buffer_size > ds) by (nonlinear_arith)
                requires buffer_size * block_size > ds, buffer_size >= block_size + 1;
            assert(block_size2 <= buffer_size) by (nonlinear_arith)
                requires block_size2 == ds / buffer_size2 + 1, buffer_size2 >= buffer_size,
                    buffer_size * buffer_size > ds, buffer_size >= 1;
        }
    }
    let buffer2_start = buffer2.start;
    let buffer2_end = buffer2.end;
    merge_pairs(array, iterator, buffer1, buffer2, pull0, pull1, block_size2, cmp);

    insertion_sort(array, buffer2_start..buffer2_end, cmp);

    redistribute(array, pull0, cmp);
    redistribute(array, pull1, cmp);
}

/// Sorts `array` stably by `cmp`, in place and without allocating. The
/// contract proves that the items are kept, and that the result is the stable
/// sorted order for fewer than 8 items (the sorting networks).
pub fn wikisort<T, F>(array: &mut [T], cmp: F)
    where
        F: Fn(&T, &T) -> Ordering,
    requires
        is_comparator(cmp),
    ensures
        final(array)@.len() == old(array)@.len(),
        final(array)@.to_multiset() == old(array)@.to_multiset(),
        old(array)@.len() < 8 ==> forall|r: spec_fn(T, T) -> Ordering| #[trigger] compares_by(cmp, r) ==> {
            &&& sorted_between(final(array)@, 0, len_of(final(array)@), r)
            &&& stable_perm(final(array)@, old(array)@, r)
        },
{
    proof {
        lemma_comparator(cmp);
    }
    if array.len() < 4 {
        sort_tiny(array, &cmp);
        return;
    }
    proof {
        lemma2_to64();
    }
    let mut iterator = WikiIterator::new(array.len(), 4);
    sort_networks(array, &mut iterator, &cmp);
    if array.len() < 8 {
        return;
    }
    proof {
        assert(iterator.ranges() >= 2) by (nonlinear_arith)
            requires iterator.size_spec() < iterator.ranges() * 4 * 2, iterator.size_spec() >= 8;
    }
    loop
        invariant_except_break
            iterator.ranges() >= 2,
            iterator.decimal_step_spec() >= 4,
        invariant
            valid_comparator(cmp),
            iterator.wf(),
            iterator.size_spec() == array@.len(),
            array@.len() == old(array)@.len(),
            array@.to_multiset() == old(array)@.to_multiset(),
        decreases iterator.ranges(),
    {
        merge_level(array, &mut iterator, &cmp);
        if !iterator.next_level() {
            break;
        }
    }
}
} // verus!
