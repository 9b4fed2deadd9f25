//! The block merging of GrailSort: merges through an internal buffer, the
//! merges of a block with the leftover of the previous one, and the passes
//! that build sorted runs and combine them block by block.
use vstd::prelude::*;
use core::cmp::Ordering;
use crate::order::{compares_by, le, lt, is_total_preorder, lemma_order_facts};
use crate::search::sorted_between;
use crate::stability::{stable_perm, class_in, lemma_class_concat, lemma_class_witness, lemma_class_push, lemma_equal_trans, lemma_stable_trans, lemma_swap_adjacent_stable, lemma_stable_perm_multiset};
use crate::ops::{ix, int_of, pred, len_of, blocks_swapped, nat_from, swap_items, lemma_swapped_multiset, rotated_range, lemma_pairwise_moves_down, pairwise_swapped};
use crate::runs::lemma_sorted_same;
use crate::merge::{merged, sorted_seq, lemma_merge_sorted_stable, lemma_merge_empty, lemma_merge_take_a, lemma_merge_take_b, lemma_merge_ordered, lemma_merge_tail_a, lemma_merge_tail_b};
use crate::grail::{grail_multi_swap, grail_rotate, grail_binary_search, grail_merge_without_buffer, grail_insert_sort, grail_lazy_stable_sort};
use vstd::arithmetic::power2::{pow2, lemma_pow2_unfold, lemma_pow2_strictly_increases, lemma_pow2_pos};
use vstd::arithmetic::div_mod::lemma_fundamental_div_mod;

verus! {

/// Merges the `left_len` items at `base` with the `right_len` items after
/// them into the positions from `base - buf_len` on, by swaps: the items of
/// the buffer that stood there end at the back of the range.
#[verifier::spinoff_prover]
fn grail_merge_left<T, F>(arr: &mut [T], base: usize, left_len: usize, right_len: usize, buf_len: usize, cmp: &F, Ghost(r): Ghost<spec_fn(T, T) -> Ordering>)
    where
        F: Fn(&T, &T) -> Ordering,
    requires
        compares_by(*cmp, r),
        buf_len <= base,
        base + left_len + right_len <= old(arr)@.len(),
    ensures
        final(arr)@.len() == old(arr)@.len(),
        final(arr)@.to_multiset() == old(arr)@.to_multiset(),
        forall|k: int| 0 <= k < old(arr)@.len() && !(base - buf_len <= k < base + left_len + right_len)
            ==> #[trigger] final(arr)@[k] == old(arr)@[k],
        right_len <= buf_len ==> final(arr)@.subrange(base - buf_len, base - buf_len + left_len + right_len) == merged(
            old(arr)@.subrange(ix(base), base + left_len),
            old(arr)@.subrange(base + left_len, base + left_len + right_len),
            r,
        ),
{
    let ghost s0 = arr@;
    let ghost lo: int = base - buf_len;
    let ghost a0 = s0.subrange(ix(base), base + left_len);
    let ghost b0 = s0.subrange(base + left_len, base + left_len + right_len);
    let ghost g = right_len <= buf_len;
    let ghost target = merged(a0, b0, r);
    let n = arr.len();
    let right_end = left_len + right_len;
    let mut left: usize = 0;
    let mut right: usize = left_len;
    let mut out: usize = base - buf_len;
    proof {
        lemma_order_facts(r);
        assert(arr@.subrange(lo, lo) =~= Seq::<T>::empty());
        assert(a0.subrange(0, ix(left_len)) =~= a0);
        assert(b0.subrange(0, ix(right_len)) =~= b0);
        assert(Seq::<T>::empty() + target =~= target);
    }
    while right < right_end
        invariant
            compares_by(*cmp, r),
            is_total_preorder(r),
            n == s0.len(),
            arr@.len() == n,
            buf_len <= base,
            lo == base - buf_len,
            right_end == left_len + right_len,
            base + right_end <= n,
            left <= left_len <= right <= right_end,
            out + buf_len == base + left + (right - left_len),
            arr@.to_multiset() == s0.to_multiset(),
            forall|k: int| 0 <= k < n && !(base - buf_len <= k < base + right_end) ==> #[trigger] arr@[k] == s0[k],
            a0 == s0.subrange(ix(base), base + left_len),
            b0 == s0.subrange(base + left_len, base + left_len + right_len),
            g == (right_len <= buf_len),
            target == merged(a0, b0, r),
            g ==> {
                &&& arr@.subrange(base + left, base + left_len) == a0.subrange(ix(left), ix(left_len))
                &&& arr@.subrange(base + right, base + right_end) == b0.subrange(right - left_len, ix(right_len))
                &&& arr@.subrange(lo, ix(out)) + merged(a0.subrange(ix(left), ix(left_len)),
                    b0.subrange(right - left_len, ix(right_len)), r) == target
            },
        decreases (right_end - right) + (left_len - left),
    {
        let ghost s = arr@;
        let ghost ra = a0.subrange(ix(left), ix(left_len));
        let ghost rb = b0.subrange(right - left_len, ix(right_len));
        proof {
            if g {
                assert(rb[0] == s[base + right]) by {
                    assert(s.subrange(base + right, base + right_end)[0] == s[base + right]);
                }
                if left < left_len {
                    assert(ra[0] == s[base + left]) by {
                        assert(s.subrange(base + left, base + left_len)[0] == s[base + left]);
                    }
                }
            }
        }
        let take_right = if left == left_len {
            true
        } else {
            match cmp(&arr[base + left], &arr[base + right]) {
                Ordering::Greater => true,
                _ => false,
            }
        };
        if take_right {
            proof {
                lemma_swapped_multiset(arr@, ix(out), base + right);
            }
            swap_items(arr, out, base + right);
            right += 1;
            proof {
                if g {
                    let s1 = arr@;
                    assert(out < base + left);
                    if ra.len() == 0 {
                        assert(merged(ra, rb, r) == rb);
                        assert(merged(ra, rb.drop_first(), r) == rb.drop_first());
                        assert(rb =~= seq![rb[0]] + rb.drop_first());
                    } else {
                        assert(lt(r, rb[0], ra[0]));
                    }
                    assert(merged(ra, rb, r) == seq![rb[0]] + merged(ra, rb.drop_first(), r));
                    assert(rb.drop_first() =~= b0.subrange(right - left_len, ix(right_len)));
                    assert(s1.subrange(lo, out + 1) =~= s.subrange(lo, ix(out)).push(rb[0]));
                    assert(s1.subrange(lo, out + 1) + merged(ra, rb.drop_first(), r)
                        =~= s.subrange(lo, ix(out)) + merged(ra, rb, r));
                    assert(s1.subrange(base + left, base + left_len) =~= s.subrange(base + left, base + left_len));
                    assert(s1.subrange(base + right, base + right_end) =~= s.subrange(base + right - 1, base + right_end).drop_first());
                    assert(s.subrange(base + right - 1, base + right_end).drop_first() =~= rb.drop_first());
                }
            }
        } else {
            proof {
                lemma_swapped_multiset(arr@, ix(out), base + left);
            }
            swap_items(arr, out, base + left);
            left += 1;
            proof {
                if g {
                    let s1 = arr@;
                    assert(out < base + left - 1);
                    assert(!lt(r, rb[0], ra[0]));
                    assert(merged(ra, rb, r) == seq![ra[0]] + merged(ra.drop_first(), rb, r));
                    assert(ra.drop_first() =~= a0.subrange(ix(left), ix(left_len)));
                    assert(s1.subrange(lo, out + 1) =~= s.subrange(lo, ix(out)).push(ra[0]));
                    assert(s1.subrange(lo, out + 1) + merged(ra.drop_first(), rb, r)
                        =~= s.subrange(lo, ix(out)) + merged(ra, rb, r));
                    assert(s1.subrange(base + right, base + right_end) =~= s.subrange(base + right, base + right_end));
                    assert(s1.subrange(base + left, base + left_len) =~= s.subrange(base + left - 1, base + left_len).drop_first());
                    assert(s.subrange(base + left - 1, base + left_len).drop_first() =~= ra.drop_first());
                }
            }
        }
        out += 1;
    }
    let ghost s2 = arr@;
    let ghost ra = a0.subrange(ix(left), ix(left_len));
    proof {
        if g {
            let rb = b0.subrange(right - left_len, ix(right_len));
            assert(rb.len() == 0);
            lemma_merge_empty(ra, rb, r);
            assert(s2.subrange(lo, ix(out)) + ra == target);
        }
    }
    if out != base + left {
        grail_multi_swap(arr, out, base + left, left_len - left);
        proof {
            if g {
                let s3 = arr@;
                lemma_pairwise_moves_down(s2, ix(out), base + left, nat_from(left_len - left));
                assert(s3 == pairwise_swapped(s2, ix(out), base + left, nat_from(left_len - left)));
                assert forall|i: int| 0 <= i < ra.len() implies #[trigger] s3[out + i] == ra[i] by {
                    assert(s2[base + left + i] == s2.subrange(base + left, base + left_len)[i]);
                }
                assert forall|k: int| lo <= k < out implies #[trigger] s3[k] == s2[k] by {}
                let want = s2.subrange(lo, ix(out)) + ra;
                assert forall|j: int| 0 <= j < want.len() implies #[trigger] s3.subrange(lo, lo + left_len + right_len)[j] == want[j] by {
                    if j < out - lo {
                        assert(s3[lo + j] == s2[lo + j]);
                    } else {
                        assert(s3[out + (j - (out - lo))] == ra[j - (out - lo)]);
                    }
                }
                assert(s3.subrange(lo, lo + left_len + right_len) =~= want);
            }
        }
    } else {
        proof {
            if g {
                assert(s2.subrange(lo, lo + left_len + right_len) =~= s2.subrange(lo, ix(out)) + s2.subrange(base + left, base + left_len));
            }
        }
    }
}

/// Merging sorted prefixes, seen from the back: the greater of the two
/// last items comes last, the one of `b` where they are equivalent.
proof fn lemma_merge_back<T>(a0: Seq<T>, ka: int, b0: Seq<T>, kb: int, r: spec_fn(T, T) -> Ordering)
    requires
        is_total_preorder(r),
        sorted_seq(a0, r),
        sorted_seq(b0, r),
        0 <= ka <= a0.len(),
        0 <= kb <= b0.len(),
    ensures
        ka > 0 && (kb == 0 || lt(r, b0[kb - 1], a0[ka - 1])) ==> merged(a0.subrange(0, ka), b0.subrange(0, kb), r)
            == merged(a0.subrange(0, ka - 1), b0.subrange(0, kb), r) + seq![a0[ka - 1]],
        kb > 0 && (ka == 0 || !lt(r, b0[kb - 1], a0[ka - 1])) ==> merged(a0.subrange(0, ka), b0.subrange(0, kb), r)
            == merged(a0.subrange(0, ka), b0.subrange(0, kb - 1), r) + seq![b0[kb - 1]],
{
    lemma_order_facts(r);
    let ra = a0.subrange(0, ka);
    let rb = b0.subrange(0, kb);
    if ka > 0 && (kb == 0 || lt(r, b0[kb - 1], a0[ka - 1])) {
        assert(ra =~= a0.subrange(0, ka - 1) + seq![a0[ka - 1]]);
        assert forall|i: int, j: int| 0 <= i < 1 && 0 <= j < rb.len()
            implies lt(r, #[trigger] rb[j], #[trigger] seq![a0[ka - 1]][i]) by {
            assert(rb[j] == b0[j]);
            assert(le(r, b0[j], b0[kb - 1]));
        }
        lemma_merge_tail_a(a0.subrange(0, ka - 1), seq![a0[ka - 1]], rb, r);
    }
    if kb > 0 && (ka == 0 || !lt(r, b0[kb - 1], a0[ka - 1])) {
        assert(rb =~= b0.subrange(0, kb - 1) + seq![b0[kb - 1]]);
        assert forall|i: int, j: int| 0 <= i < ra.len() && 0 <= j < 1
            implies !lt(r, #[trigger] seq![b0[kb - 1]][j], #[trigger] ra[i]) by {
            assert(ra[i] == a0[i]);
            assert(le(r, a0[i], a0[ka - 1]));
        }
        lemma_merge_tail_b(ra, b0.subrange(0, kb - 1), seq![b0[kb - 1]], r);
    }
}

/// Merges, from the back, the `left_len` items at `base` with the
/// `right_len` items after them into the range that ends `buf_len` items
/// further, by swaps: the items of the buffer after them end at the front.
#[verifier::spinoff_prover]
#[verifier::rlimit(50)]
fn grail_merge_right<T, F>(arr: &mut [T], base: usize, left_len: usize, right_len: usize, buf_len: usize, cmp: &F, Ghost(r): Ghost<spec_fn(T, T) -> Ordering>)
    where
        F: Fn(&T, &T) -> Ordering,
    requires
        compares_by(*cmp, r),
        base + left_len + right_len + buf_len <= old(arr)@.len(),
    ensures
        final(arr)@.len() == old(arr)@.len(),
        final(arr)@.to_multiset() == old(arr)@.to_multiset(),
        forall|k: int| 0 <= k < old(arr)@.len() && !(base <= k < base + left_len + right_len + buf_len)
            ==> #[trigger] final(arr)@[k] == old(arr)@[k],
        left_len <= buf_len
            && sorted_between(old(arr)@, ix(base), base + left_len, r)
            && sorted_between(old(arr)@, base + left_len, base + left_len + right_len, r)
            ==> final(arr)@.subrange(base + buf_len, base + left_len + right_len + buf_len) == merged(
                old(arr)@.subrange(ix(base), base + left_len),
                old(arr)@.subrange(base + left_len, base + left_len + right_len),
                r,
            ),
{
    let ghost s0 = arr@;
    let ghost end = base + left_len + right_len + buf_len;
    let ghost a0 = s0.subrange(ix(base), base + left_len);
    let ghost b0 = s0.subrange(base + left_len, base + left_len + right_len);
    let ghost g = left_len <= buf_len
        && sorted_between(s0, ix(base), base + left_len, r)
        && sorted_between(s0, base + left_len, base + left_len + right_len, r);
    let ghost target = merged(a0, b0, r);
    let n = arr.len();
    // One past the merge position, the right item and the left item.
    let mut merged_end = left_len + right_len + buf_len;
    let mut right_stop = left_len + right_len;
    let mut left_stop = left_len;
    proof {
        lemma_order_facts(r);
        assert(a0.subrange(0, ix(left_len)) =~= a0);
        assert(b0.subrange(0, ix(right_len)) =~= b0);
        assert(target + arr@.subrange(end, end) =~= target);
        if g {
            assert forall|i: int, j: int| 0 <= i <= j < a0.len() implies le(r, #[trigger] a0[i], #[trigger] a0[j]) by {
                assert(a0[i] == s0[base + i] && a0[j] == s0[base + j]);
            }
            assert forall|i: int, j: int| 0 <= i <= j < b0.len() implies le(r, #[trigger] b0[i], #[trigger] b0[j]) by {
                assert(b0[i] == s0[base + left_len + i] && b0[j] == s0[base + left_len + j]);
            }
        }
    }
    while left_stop > 0
        invariant
            compares_by(*cmp, r),
            is_total_preorder(r),
            n == s0.len(),
            arr@.len() == n,
            end == base + left_len + right_len + buf_len,
            end <= n,
            left_stop <= left_len <= right_stop <= left_len + right_len,
            merged_end == left_stop + (right_stop - left_len) + buf_len,
            arr@.to_multiset() == s0.to_multiset(),
            forall|k: int| 0 <= k < n && !(base <= k < end) ==> #[trigger] arr@[k] == s0[k],
            a0 == s0.subrange(ix(base), base + left_len),
            b0 == s0.subrange(base + left_len, base + left_len + right_len),
            target == merged(a0, b0, r),
            g ==> {
                &&& left_len <= buf_len
                &&& sorted_between(s0, ix(base), base + left_len, r)
                &&& sorted_seq(a0, r)
                &&& sorted_seq(b0, r)
                &&& arr@.subrange(ix(base), base + left_stop) == a0.subrange(0, ix(left_stop))
                &&& arr@.subrange(base + left_len, base + right_stop) == b0.subrange(0, right_stop - left_len)
                &&& merged(a0.subrange(0, ix(left_stop)), b0.subrange(0, right_stop - left_len), r)
                    + arr@.subrange(base + merged_end, end) == target
            },
        decreases left_stop + right_stop,
    {
        let ghost s = arr@;
        let ghost ra = a0.subrange(0, ix(left_stop));
        let ghost rb = b0.subrange(0, right_stop - left_len);
        proof {
            if g {
                assert(ra[ra.len() - 1] == s[base + left_stop - 1]) by {
                    assert(s.subrange(ix(base), base + left_stop)[left_stop - 1] == s[base + left_stop - 1]);
                }
                if right_stop > left_len {
                    assert(rb[rb.len() - 1] == s[base + right_stop - 1]) by {
                        assert(s.subrange(base + left_len, base + right_stop)[right_stop - left_len - 1] == s[base + right_stop - 1]);
                    }
                }
            }
        }
        let take_left = if right_stop <= left_len {
            true
        } else {
            match cmp(&arr[base + left_stop - 1], &arr[base + right_stop - 1]) {
                Ordering::Greater => true,
                _ => false,
            }
        };
        if take_left {
            proof {
                lemma_swapped_multiset(arr@, base + merged_end - 1, base + left_stop - 1);
            }
            swap_items(arr, base + merged_end - 1, base + left_stop - 1);
            left_stop -= 1;
            proof {
                if g {
                    let s1 = arr@;
                    let al = ra[ra.len() - 1];
                    lemma_merge_back(a0, left_stop + 1, b0, right_stop - left_len, r);
                    assert(al == a0[ix(left_stop)]);
                    assert(s1.subrange(base + merged_end - 1, end) =~= seq![al] + s.subrange(base + merged_end, end));
                    assert(merged(a0.subrange(0, ix(left_stop)), rb, r) + s1.subrange(base + merged_end - 1, end)
                        =~= merged(ra, rb, r) + s.subrange(base + merged_end, end));
                    assert(s1.subrange(ix(base), base + left_stop) =~= s.subrange(ix(base), base + left_stop));
                    assert(s1.subrange(base + left_len, base + right_stop) =~= s.subrange(base + left_len, base + right_stop));
                }
            }
        } else {
            proof {
                lemma_swapped_multiset(arr@, base + merged_end - 1, base + right_stop - 1);
            }
            swap_items(arr, base + merged_end - 1, base + right_stop - 1);
            right_stop -= 1;
            proof {
                if g {
                    let s1 = arr@;
                    let bl = rb[rb.len() - 1];
                    lemma_merge_back(a0, ix(left_stop), b0, right_stop + 1 - left_len, r);
                    assert(bl == b0[right_stop - left_len]);
                    assert(s1.subrange(base + merged_end - 1, end) =~= seq![bl] + s.subrange(base + merged_end, end));
                    assert(merged(ra, b0.subrange(0, right_stop - left_len), r) + s1.subrange(base + merged_end - 1, end)
                        =~= merged(ra, rb, r) + s.subrange(base + merged_end, end));
                    assert(s1.subrange(ix(base), base + left_stop) =~= s.subrange(ix(base), base + left_stop));
                    assert(s1.subrange(base + left_len, base + right_stop) =~= s.subrange(base + left_len, base + right_stop));
                }
            }
        }
        merged_end -= 1;
    }
    proof {
        if g {
            let rb = b0.subrange(0, right_stop - left_len);
            lemma_merge_empty(a0.subrange(0, 0), rb, r);
        }
    }
    if right_stop != merged_end {
        while right_stop > left_len
            invariant
                n == s0.len(),
                arr@.len() == n,
                end == base + left_len + right_len + buf_len,
                end <= n,
                left_len <= right_stop <= left_len + right_len,
                merged_end == right_stop - left_len + buf_len,
                arr@.to_multiset() == s0.to_multiset(),
                forall|k: int| 0 <= k < n && !(base <= k < end) ==> #[trigger] arr@[k] == s0[k],
                b0 == s0.subrange(base + left_len, base + left_len + right_len),
                g ==> {
                    &&& left_len <= buf_len
                    &&& arr@.subrange(base + left_len, base + right_stop) == b0.subrange(0, right_stop - left_len)
                    &&& b0.subrange(0, right_stop - left_len) + arr@.subrange(base + merged_end, end) == target
                },
            decreases right_stop,
        {
            let ghost s = arr@;
            let ghost rb = b0.subrange(0, right_stop - left_len);
            proof {
                lemma_swapped_multiset(arr@, base + merged_end - 1, base + right_stop - 1);
            }
            swap_items(arr, base + merged_end - 1, base + right_stop - 1);
            merged_end -= 1;
            right_stop -= 1;
            proof {
                if g {
                    let s1 = arr@;
                    let bl = rb[rb.len() - 1];
                    assert(bl == s[base + right_stop]) by {
                        assert(s.subrange(base + left_len, base + right_stop + 1)[right_stop - left_len] == s[base + right_stop]);
                    }
                    assert(rb =~= b0.subrange(0, right_stop - left_len) + seq![bl]);
                    assert(s1.subrange(base + merged_end, end) =~= seq![bl] + s.subrange(base + merged_end + 1, end));
                    assert(s1.subrange(base + left_len, base + right_stop) =~= s.subrange(base + left_len, base + right_stop));
                    assert(b0.subrange(0, right_stop - left_len) + s1.subrange(base + merged_end, end)
                        =~= rb + s.subrange(base + merged_end + 1, end));
                }
            }
        }
        proof {
            if g {
                assert(b0.subrange(0, 0) + arr@.subrange(base + merged_end, end) =~= arr@.subrange(base + merged_end, end));
            }
        }
    } else {
        proof {
            if g {
                assert(arr@.subrange(base + left_len, base + right_stop) + arr@.subrange(base + merged_end, end)
                    =~= arr@.subrange(base + buf_len, end));
            }
        }
    }
}

/// The number of an `Ordering`: -1, 0 or 1.
fn ordering_number(o: Ordering) -> (v: isize)
    ensures
        v == match o {
            Ordering::Less => -1int,
            Ordering::Equal => 0int,
            Ordering::Greater => 1int,
        },
{
    match o {
        Ordering::Less => -1,
        Ordering::Equal => 0,
        Ordering::Greater => 1,
    }
}

/// The merge of a left-over piece `a` of fragment type `frag` with a block
/// `b` of the other type: among equivalent items, those of type 0 go first.
pub open spec fn frag_merged<T>(a: Seq<T>, b: Seq<T>, frag: isize, r: spec_fn(T, T) -> Ordering) -> Seq<T> {
    if frag == 0 { merged(a, b, r) } else { merged(b, a, r) }
}

/// How many items are left over of one of `a` and `b` once the merge has
/// taken every item of the other.
pub open spec fn merge_rest_len<T>(a: Seq<T>, b: Seq<T>, r: spec_fn(T, T) -> Ordering) -> nat
    decreases a.len() + b.len(),
{
    if a.len() == 0 {
        b.len()
    } else if b.len() == 0 {
        a.len()
    } else if lt(r, b[0], a[0]) {
        merge_rest_len(a, b.drop_first(), r)
    } else {
        merge_rest_len(a.drop_first(), b, r)
    }
}

/// Whether the items left over by the merge of `a` and `b` are of `a`.
pub open spec fn merge_rest_of_first<T>(a: Seq<T>, b: Seq<T>, r: spec_fn(T, T) -> Ordering) -> bool
    decreases a.len() + b.len(),
{
    if a.len() == 0 {
        false
    } else if b.len() == 0 {
        true
    } else if lt(r, b[0], a[0]) {
        merge_rest_of_first(a, b.drop_first(), r)
    } else {
        merge_rest_of_first(a.drop_first(), b, r)
    }
}

/// How many items `frag_merged` leaves over of one piece once it has taken
/// every item of the other.
pub open spec fn frag_rest_len<T>(a: Seq<T>, b: Seq<T>, frag: isize, r: spec_fn(T, T) -> Ordering) -> nat {
    if frag == 0 { merge_rest_len(a, b, r) } else { merge_rest_len(b, a, r) }
}

/// Whether what `frag_merged` leaves over is of `a`.
pub open spec fn frag_rest_of_a<T>(a: Seq<T>, b: Seq<T>, frag: isize, r: spec_fn(T, T) -> Ordering) -> bool {
    if frag == 0 { merge_rest_of_first(a, b, r) } else { !merge_rest_of_first(b, a, r) }
}

/// One step of `frag_merged`: which head comes out first.
proof fn lemma_frag_merge_step<T>(a: Seq<T>, b: Seq<T>, frag: isize, r: spec_fn(T, T) -> Ordering)
    requires
        0 <= frag <= 1,
    ensures
        a.len() > 0 && b.len() > 0 && ((frag == 0 && !lt(r, b[0], a[0])) || (frag == 1 && lt(r, a[0], b[0])))
            ==> frag_merged(a, b, frag, r) == seq![a[0]] + frag_merged(a.drop_first(), b, frag, r)
                && frag_rest_len(a, b, frag, r) == frag_rest_len(a.drop_first(), b, frag, r)
                && frag_rest_of_a(a, b, frag, r) == frag_rest_of_a(a.drop_first(), b, frag, r),
        a.len() > 0 && b.len() > 0 && ((frag == 0 && lt(r, b[0], a[0])) || (frag == 1 && !lt(r, a[0], b[0])))
            ==> frag_merged(a, b, frag, r) == seq![b[0]] + frag_merged(a, b.drop_first(), frag, r)
                && frag_rest_len(a, b, frag, r) == frag_rest_len(a, b.drop_first(), frag, r)
                && frag_rest_of_a(a, b, frag, r) == frag_rest_of_a(a, b.drop_first(), frag, r),
        b.len() == 0 ==> frag_merged(a, b, frag, r) == a && frag_rest_len(a, b, frag, r) == a.len(),
        b.len() == 0 && a.len() > 0 ==> frag_rest_of_a(a, b, frag, r),
        a.len() == 0 ==> frag_merged(a, b, frag, r) == b && frag_rest_len(a, b, frag, r) == b.len(),
        a.len() == 0 && b.len() > 0 ==> !frag_rest_of_a(a, b, frag, r),
{
}

/// Items of `b` that go before the head of `a` leave the left-over as it
/// was.
proof fn lemma_frag_rest_take_b<T>(a: Seq<T>, b1: Seq<T>, b2: Seq<T>, frag: isize, r: spec_fn(T, T) -> Ordering)
    requires
        0 <= frag <= 1,
        a.len() > 0,
        forall|i: int| 0 <= i < b1.len() ==> (frag == 0 ==> lt(r, #[trigger] b1[i], a[0]))
            && (frag == 1 ==> !lt(r, a[0], b1[i])),
    ensures
        frag_rest_len(a, b1 + b2, frag, r) == frag_rest_len(a, b2, frag, r),
        frag_rest_of_a(a, b1 + b2, frag, r) == frag_rest_of_a(a, b2, frag, r),
    decreases b1.len(),
{
    if b1.len() > 0 {
        let b = b1 + b2;
        assert(b[0] == b1[0]);
        assert(b.drop_first() =~= b1.drop_first() + b2);
        lemma_frag_merge_step(a, b, frag, r);
        assert forall|i: int| 0 <= i < b1.drop_first().len() implies (frag == 0 ==> lt(r, #[trigger] b1.drop_first()[i], a[0]))
            && (frag == 1 ==> !lt(r, a[0], b1.drop_first()[i])) by {
            assert(b1.drop_first()[i] == b1[i + 1]);
        }
        lemma_frag_rest_take_b(a, b1.drop_first(), b2, frag, r);
    } else {
        assert(b1 + b2 =~= b2);
    }
}

/// Items of `a` that go before the head of `b` leave the left-over as it
/// was.
proof fn lemma_frag_rest_take_a<T>(a1: Seq<T>, a2: Seq<T>, b: Seq<T>, frag: isize, r: spec_fn(T, T) -> Ordering)
    requires
        0 <= frag <= 1,
        b.len() > 0,
        forall|i: int| 0 <= i < a1.len() ==> (frag == 0 ==> !lt(r, b[0], #[trigger] a1[i]))
            && (frag == 1 ==> lt(r, a1[i], b[0])),
    ensures
        frag_rest_len(a1 + a2, b, frag, r) == frag_rest_len(a2, b, frag, r),
        frag_rest_of_a(a1 + a2, b, frag, r) == frag_rest_of_a(a2, b, frag, r),
    decreases a1.len(),
{
    if a1.len() > 0 {
        let a = a1 + a2;
        assert(a[0] == a1[0]);
        assert(a.drop_first() =~= a1.drop_first() + a2);
        lemma_frag_merge_step(a, b, frag, r);
        assert forall|i: int| 0 <= i < a1.drop_first().len() implies (frag == 0 ==> !lt(r, b[0], #[trigger] a1.drop_first()[i]))
            && (frag == 1 ==> lt(r, a1.drop_first()[i], b[0])) by {
            assert(a1.drop_first()[i] == a1[i + 1]);
        }
        lemma_frag_rest_take_a(a1.drop_first(), a2, b, frag, r);
    } else {
        assert(a1 + a2 =~= a2);
    }
}

/// Merges the `*left_over_len` items left over at `base` (of fragment type
/// `*left_over_frag`) with the block of `block_len` items after them, into
/// the buffer of `block_len` items before `base`, by swaps. Among
/// equivalent items, those of fragment type 0 go first. Afterwards
/// `*left_over_len` and `*left_over_frag` describe what is left over of the
/// two at the back.
#[verifier::spinoff_prover]
fn grail_smart_merge_with_buffer<T, F>(arr: &mut [T], base: usize, left_over_len: &mut usize, left_over_frag: &mut isize, block_len: usize, cmp: &F, Ghost(r): Ghost<spec_fn(T, T) -> Ordering>)
    where
        F: Fn(&T, &T) -> Ordering,
    requires
        compares_by(*cmp, r),
        0 <= *old(left_over_frag) <= 1,
        block_len <= base,
        base + *old(left_over_len) + block_len <= old(arr)@.len(),
    ensures
        final(arr)@.len() == old(arr)@.len(),
        final(arr)@.to_multiset() == old(arr)@.to_multiset(),
        forall|k: int| 0 <= k < old(arr)@.len() && !(base - block_len <= k < base + *old(left_over_len) + block_len)
            ==> #[trigger] final(arr)@[k] == old(arr)@[k],
        0 <= *final(left_over_frag) <= 1,
        *final(left_over_len) <= *old(left_over_len) || *final(left_over_len) <= block_len,
        ({
            let end = base + *old(left_over_len) + block_len;
            let rem = ix(*final(left_over_len));
            let a = old(arr)@.subrange(ix(base), base + *old(left_over_len));
            let b = old(arr)@.subrange(base + *old(left_over_len), end);
            &&& rem <= *old(left_over_len) + block_len
            &&& final(arr)@.subrange(base - block_len, end - block_len - rem) + final(arr)@.subrange(end - rem, end)
                == frag_merged(a, b, *old(left_over_frag), r)
            &&& (*final(left_over_frag) == *old(left_over_frag)
                    && final(arr)@.subrange(end - rem, end) == a.subrange(len_of(a) - rem, len_of(a)))
                || (*final(left_over_frag) == 1 - *old(left_over_frag)
                    && final(arr)@.subrange(end - rem, end) == b.subrange(len_of(b) - rem, len_of(b)))
            &&& rem == frag_rest_len(a, b, *old(left_over_frag), r)
            &&& rem > 0 ==> (*final(left_over_frag) == *old(left_over_frag) <==> frag_rest_of_a(a, b, *old(left_over_frag), r))
        }),
{
    let ghost s0 = arr@;
    let ghost lol0 = *left_over_len;
    let ghost lf: isize = *left_over_frag;
    let ghost end = base + lol0 + block_len;
    let ghost lo: int = base - block_len;
    let ghost a0 = s0.subrange(ix(base), base + lol0);
    let ghost b0 = s0.subrange(base + lol0, end);
    let ghost target = frag_merged(a0, b0, lf, r);
    let n = arr.len();
    let mut out: usize = base - block_len;
    let mut left: usize = 0;
    let mut right: usize = *left_over_len;
    let mut left_end: usize = right;
    let mut right_end: usize = right + block_len;
    let frag_type: isize = 1 - *left_over_frag;
    proof {
        lemma_order_facts(r);
        assert(a0.subrange(0, ix(lol0)) =~= a0);
        assert(b0.subrange(0, ix(block_len)) =~= b0);
        assert(arr@.subrange(lo, lo) + target =~= target);
    }
    while left < left_end && right < right_end
        invariant
            compares_by(*cmp, r),
            is_total_preorder(r),
            n == s0.len(),
            arr@.len() == n,
            block_len <= base,
            lo == base - block_len,
            end == base + lol0 + block_len,
            end <= n,
            left_end == lol0,
            right_end == lol0 + block_len,
            0 <= frag_type <= 1,
            lf == 1 - frag_type,
            left <= left_end <= right <= right_end,
            out + block_len == base + left + (right - lol0),
            arr@.to_multiset() == s0.to_multiset(),
            forall|k: int| 0 <= k < n && !(base - block_len <= k < end) ==> #[trigger] arr@[k] == s0[k],
            a0 == s0.subrange(ix(base), base + lol0),
            b0 == s0.subrange(base + lol0, end),
            target == frag_merged(a0, b0, lf, r),
            arr@.subrange(base + left, base + lol0) == a0.subrange(ix(left), ix(lol0)),
            arr@.subrange(base + right, end) == b0.subrange(right - lol0, ix(block_len)),
            arr@.subrange(lo, ix(out)) + frag_merged(a0.subrange(ix(left), ix(lol0)),
                b0.subrange(right - lol0, ix(block_len)), lf, r) == target,
            frag_rest_len(a0.subrange(ix(left), ix(lol0)), b0.subrange(right - lol0, ix(block_len)), lf, r)
                == frag_rest_len(a0, b0, lf, r),
            frag_rest_of_a(a0.subrange(ix(left), ix(lol0)), b0.subrange(right - lol0, ix(block_len)), lf, r)
                == frag_rest_of_a(a0, b0, lf, r),
        decreases (left_end - left) + (right_end - right),
    {
        let ghost s = arr@;
        let ghost ra = a0.subrange(ix(left), ix(lol0));
        let ghost rb = b0.subrange(right - lol0, ix(block_len));
        proof {
            assert(ra[0] == s[base + left]) by {
                assert(s.subrange(base + left, base + lol0)[0] == s[base + left]);
            }
            assert(rb[0] == s[base + right]) by {
                assert(s.subrange(base + right, end)[0] == s[base + right]);
            }
            lemma_frag_merge_step(ra, rb, lf, r);
        }
        let comparison = ordering_number(cmp(&arr[base + left], &arr[base + right])) - frag_type;
        if comparison < 0 {
            proof {
                lemma_swapped_multiset(arr@, ix(out), base + left);
            }
            swap_items(arr, out, base + left);
            left += 1;
            proof {
                let s1 = arr@;
                assert(ra.drop_first() =~= a0.subrange(ix(left), ix(lol0)));
                assert(s1.subrange(lo, out + 1) =~= s.subrange(lo, ix(out)).push(ra[0]));
                assert(s1.subrange(lo, out + 1) + frag_merged(ra.drop_first(), rb, lf, r)
                    =~= s.subrange(lo, ix(out)) + frag_merged(ra, rb, lf, r));
                assert(s1.subrange(base + right, end) =~= s.subrange(base + right, end));
                assert(s1.subrange(base + left, base + lol0) =~= s.subrange(base + left - 1, base + lol0).drop_first());
            }
        } else {
            proof {
                lemma_swapped_multiset(arr@, ix(out), base + right);
            }
            swap_items(arr, out, base + right);
            right += 1;
            proof {
                let s1 = arr@;
                assert(rb.drop_first() =~= b0.subrange(right - lol0, ix(block_len)));
                assert(s1.subrange(lo, out + 1) =~= s.subrange(lo, ix(out)).push(rb[0]));
                assert(s1.subrange(lo, out + 1) + frag_merged(ra, rb.drop_first(), lf, r)
                    =~= s.subrange(lo, ix(out)) + frag_merged(ra, rb, lf, r));
                assert(s1.subrange(base + left, base + lol0) =~= s.subrange(base + left, base + lol0));
                assert(s1.subrange(base + right, end) =~= s.subrange(base + right - 1, end).drop_first());
            }
        }
        out += 1;
    }
    let ghost s2 = arr@;
    let ghost ra = a0.subrange(ix(left), ix(lol0));
    let ghost rb = b0.subrange(right - lol0, ix(block_len));
    proof {
        lemma_frag_merge_step(ra, rb, lf, r);
    }
    if left < left_end {
        *left_over_len = left_end - left;
        let ghost rem = left_end - left;
        proof {
            assert(rb.len() == 0);
            assert(s2.subrange(lo, ix(out)) + ra == target);
            assert(ra.subrange(0, rem) =~= ra);
            assert(ra.subrange(rem, rem) + s2.subrange(end, end) =~= Seq::<T>::empty());
        }
        while left < left_end
            invariant
                n == s0.len(),
                arr@.len() == n,
                end == base + lol0 + block_len,
                end <= n,
                block_len <= base,
                lo == base - block_len,
                left <= left_end <= lol0,
                rem == lol0 - left,
                ra.len() == rem,
                ra == a0.subrange(ix(left), ix(lol0)),
                a0 == s0.subrange(ix(base), base + lol0),
                right_end == left_end + block_len,
                out == base + left,
                arr@.to_multiset() == s0.to_multiset(),
                forall|k: int| 0 <= k < n && !(base - block_len <= k < end) ==> #[trigger] arr@[k] == s0[k],
                arr@.subrange(lo, ix(out)) == s2.subrange(lo, ix(out)),
                arr@.subrange(base + left, base + left_end) == ra.subrange(0, left_end - left),
                arr@.subrange(base + right_end, end) == ra.subrange(left_end - left, rem),
            decreases left_end - left,
        {
            let ghost s = arr@;
            left_end -= 1;
            right_end -= 1;
            proof {
                lemma_swapped_multiset(arr@, base + left_end, base + right_end);
            }
            swap_items(arr, base + left_end, base + right_end);
            proof {
                let s1 = arr@;
                assert(s[base + left_end] == ra[left_end - left]) by {
                    assert(s.subrange(base + left, base + left_end + 1)[left_end - left] == s[base + left_end]);
                }
                assert(s1.subrange(lo, ix(out)) =~= s.subrange(lo, ix(out)));
                assert(s1.subrange(base + left, base + left_end) =~= s.subrange(base + left, base + left_end + 1).drop_last());
                assert(ra.subrange(0, left_end - left) =~= ra.subrange(0, left_end + 1 - left).drop_last());
                assert(s1.subrange(base + right_end, end) =~= seq![ra[left_end - left]] + s.subrange(base + right_end + 1, end));
                assert(ra.subrange(left_end - left, rem) =~= seq![ra[left_end - left]] + ra.subrange(left_end + 1 - left, rem));
            }
        }
        proof {
            let s3 = arr@;
            assert(ra.subrange(0, rem) =~= ra);
            assert(ra =~= a0.subrange(ix(lol0) - rem, ix(lol0)));
            assert(end - block_len - rem == out);
        }
    } else {
        *left_over_len = right_end - right;
        *left_over_frag = frag_type;
        proof {
            assert(ra.len() == 0);
            assert(s2.subrange(lo, ix(out)) + rb == target);
            assert(rb =~= b0.subrange(block_len - (right_end - right), ix(block_len)));
            assert(end - block_len - (right_end - right) == out);
        }
    }
}

/// Items of `b` that go before the head of `a` come out first.
proof fn lemma_frag_take_b<T>(a: Seq<T>, b1: Seq<T>, b2: Seq<T>, frag: isize, r: spec_fn(T, T) -> Ordering)
    requires
        0 <= frag <= 1,
        a.len() > 0,
        forall|i: int| 0 <= i < b1.len() ==> (frag == 0 ==> lt(r, #[trigger] b1[i], a[0]))
            && (frag == 1 ==> !lt(r, a[0], b1[i])),
    ensures
        frag_merged(a, b1 + b2, frag, r) == b1 + frag_merged(a, b2, frag, r),
{
    if frag == 0 {
        lemma_merge_take_b(a, b1, b2, r);
    } else {
        lemma_merge_take_a(b1, b2, a, r);
    }
}

/// Two sorted pieces whose junction is in order merge into the one and then
/// the other.
proof fn lemma_frag_ordered<T>(a: Seq<T>, b: Seq<T>, frag: isize, r: spec_fn(T, T) -> Ordering)
    requires
        is_total_preorder(r),
        0 <= frag <= 1,
        sorted_seq(a, r),
        sorted_seq(b, r),
        a.len() > 0,
        b.len() > 0,
        (frag == 0 && !lt(r, b[0], a[a.len() - 1])) || (frag == 1 && lt(r, a[a.len() - 1], b[0])),
    ensures
        frag_merged(a, b, frag, r) == a + b,
{
    lemma_order_facts(r);
    if frag == 0 {
        assert forall|i: int, j: int| 0 <= i < a.len() && 0 <= j < b.len() implies !lt(r, #[trigger] b[j], #[trigger] a[i]) by {
            assert(le(r, a[i], a[a.len() - 1]));
            assert(le(r, b[0], b[j]));
        }
        lemma_merge_ordered(a, b, r);
    } else {
        assert forall|i: int| 0 <= i < a.len() implies lt(r, #[trigger] a[i], b[0]) by {
            assert(le(r, a[i], a[a.len() - 1]));
        }
        lemma_merge_take_b(b, a, Seq::<T>::empty(), r);
        assert(a + Seq::<T>::empty() =~= a);
        lemma_merge_empty(b, Seq::<T>::empty(), r);
    }
}

/// A piece of a sorted sequence is sorted.
proof fn lemma_sorted_sub<T>(s: Seq<T>, i: int, j: int, r: spec_fn(T, T) -> Ordering)
    requires
        sorted_seq(s, r),
        0 <= i <= j <= s.len(),
    ensures
        sorted_seq(s.subrange(i, j), r),
{
    assert forall|p: int, q: int| 0 <= p <= q < j - i implies le(r, #[trigger] s.subrange(i, j)[p], #[trigger] s.subrange(i, j)[q]) by {
        assert(s.subrange(i, j)[p] == s[i + p] && s.subrange(i, j)[q] == s[i + q]);
    }
}

/// Merges, by rotations and without a buffer, the `*left_over_len` items
/// left over at `base` (of fragment type `*left_over_frag`) with the block of
/// `reg_block_len` items after them; among equivalent items, those of
/// fragment type 0 go first. Afterwards `*left_over_len` and
/// `*left_over_frag` describe what is left over at the back.
#[verifier::spinoff_prover]
#[verifier::rlimit(60)]
fn grail_smart_merge_without_buffer<T, F>(arr: &mut [T], base: usize, left_over_len: &mut usize, left_over_frag: &mut isize, reg_block_len: usize, cmp: &F, Ghost(r): Ghost<spec_fn(T, T) -> Ordering>)
    where
        F: Fn(&T, &T) -> Ordering,
    requires
        compares_by(*cmp, r),
        0 <= *old(left_over_frag) <= 1,
        base + *old(left_over_len) + reg_block_len <= old(arr)@.len(),
    ensures
        final(arr)@.len() == old(arr)@.len(),
        final(arr)@.to_multiset() == old(arr)@.to_multiset(),
        forall|k: int| 0 <= k < old(arr)@.len() && !(base <= k < base + *old(left_over_len) + reg_block_len)
            ==> #[trigger] final(arr)@[k] == old(arr)@[k],
        0 <= *final(left_over_frag) <= 1,
        *final(left_over_len) <= *old(left_over_len) || *final(left_over_len) <= reg_block_len,
        reg_block_len == 0 ==> final(arr)@ == old(arr)@ && *final(left_over_len) == *old(left_over_len)
            && *final(left_over_frag) == *old(left_over_frag),
        ({
            let end = base + *old(left_over_len) + reg_block_len;
            let rem = ix(*final(left_over_len));
            let a = old(arr)@.subrange(ix(base), base + *old(left_over_len));
            let b = old(arr)@.subrange(base + *old(left_over_len), end);
            sorted_seq(a, r) && sorted_seq(b, r) ==> {
                &&& rem <= *old(left_over_len) + reg_block_len
                &&& final(arr)@.subrange(ix(base), end) == frag_merged(a, b, *old(left_over_frag), r)
                &&& (*final(left_over_frag) == *old(left_over_frag)
                        && final(arr)@.subrange(end - rem, end) == a.subrange(len_of(a) - rem, len_of(a)))
                    || (*final(left_over_frag) == 1 - *old(left_over_frag)
                        && final(arr)@.subrange(end - rem, end) == b.subrange(len_of(b) - rem, len_of(b)))
                &&& rem == frag_rest_len(a, b, *old(left_over_frag), r)
                &&& rem > 0 ==> (*final(left_over_frag) == *old(left_over_frag) <==> frag_rest_of_a(a, b, *old(left_over_frag), r))
            }
        }),
{
    let ghost s0 = arr@;
    let ghost lol0 = *left_over_len;
    let ghost lf: isize = *left_over_frag;
    let ghost end = base + lol0 + reg_block_len;
    let ghost a0 = s0.subrange(ix(base), base + lol0);
    let ghost b0 = s0.subrange(base + lol0, end);
    let ghost g = sorted_seq(a0, r) && sorted_seq(b0, r);
    let ghost target = frag_merged(a0, b0, lf, r);
    let n = arr.len();
    proof {
        lemma_order_facts(r);
        assert(a0.subrange(0, ix(lol0)) =~= a0);
        assert(b0.subrange(0, ix(reg_block_len)) =~= b0);
    }
    if reg_block_len == 0 {
        proof {
            assert(b0.len() == 0);
            lemma_frag_merge_step(a0, b0, lf, r);
            assert(arr@.subrange(ix(base), end) =~= a0);
        }
        return;
    }
    let mut len1 = *left_over_len;
    let mut len2 = reg_block_len;
    let frag_type: isize = 1 - *left_over_frag;
    let mut b = base;
    if len1 != 0 {
        let ghost s = arr@;
        proof {
            assert(s[b + len1 - 1] == a0[len1 - 1]);
            assert(s[b + len1] == b0[0]);
        }
        let comparison = ordering_number(cmp(&arr[b + len1 - 1], &arr[b + len1])) - frag_type;
        if comparison >= 0 {
            proof {
                assert(arr@.subrange(ix(base), ix(b)) + target =~= target);
                assert(arr@.subrange(ix(b), b + len1) =~= a0.subrange(lol0 - len1, ix(lol0)));
                assert(arr@.subrange(b + len1, end) =~= b0.subrange(reg_block_len - len2, ix(reg_block_len)));
            }
            while len1 != 0
                invariant
                    compares_by(*cmp, r),
                    is_total_preorder(r),
                    n == s0.len(),
                    arr@.len() == n,
                    end == base + lol0 + reg_block_len,
                    end <= n,
                    0 <= frag_type <= 1,
                    lf == 1 - frag_type,
                    base <= b,
                    b + len1 + len2 == end,
                    1 <= len2 <= reg_block_len,
                    len1 <= lol0,
                    s0 == old(arr)@,
                    lol0 == *old(left_over_len),
                    *left_over_frag == *old(left_over_frag),
                    lf == *old(left_over_frag),
                    0 <= *left_over_frag <= 1,
                    arr@.to_multiset() == s0.to_multiset(),
                    forall|k: int| 0 <= k < n && !(base <= k < end) ==> #[trigger] arr@[k] == s0[k],
                    a0 == s0.subrange(ix(base), base + lol0),
                    b0 == s0.subrange(base + lol0, end),
                    a0.len() == lol0,
                    b0.len() == reg_block_len,
                    target == frag_merged(a0, b0, lf, r),
                    g == (sorted_seq(a0, r) && sorted_seq(b0, r)),
                    g ==> {
                        &&& arr@.subrange(ix(b), b + len1) == a0.subrange(lol0 - len1, ix(lol0))
                        &&& arr@.subrange(b + len1, end) == b0.subrange(reg_block_len - len2, ix(reg_block_len))
                        &&& arr@.subrange(ix(base), ix(b)) + frag_merged(a0.subrange(lol0 - len1, ix(lol0)),
                            b0.subrange(reg_block_len - len2, ix(reg_block_len)), lf, r) == target
                        &&& frag_rest_len(a0.subrange(lol0 - len1, ix(lol0)), b0.subrange(reg_block_len - len2, ix(reg_block_len)), lf, r)
                            == frag_rest_len(a0, b0, lf, r)
                        &&& frag_rest_of_a(a0.subrange(lol0 - len1, ix(lol0)), b0.subrange(reg_block_len - len2, ix(reg_block_len)), lf, r)
                            == frag_rest_of_a(a0, b0, lf, r)
                    },
                decreases len1,
            {
                let ghost s1 = arr@;
                let ghost la = a0.subrange(lol0 - len1, ix(lol0));
                let ghost lb = b0.subrange(reg_block_len - len2, ix(reg_block_len));
                proof {
                    if g {
                        lemma_sorted_sub(b0, reg_block_len - len2, ix(reg_block_len), r);
                        assert(la[0] == s1[ix(b)]) by {
                            assert(s1.subrange(ix(b), b + len1)[0] == s1[ix(b)]);
                        }
                        assert forall|i: int| b + len1 <= i < end implies #[trigger] s1[i] == lb[i - b - len1] by {
                            assert(s1.subrange(b + len1, end)[i - b - len1] == s1[i]);
                        }
                        assert(sorted_between(s1, b + len1, b + len1 + len2, r)) by {
                            assert forall|i: int, j: int| b + len1 <= i <= j < b + len1 + len2
                                implies le(r, #[trigger] s1[i], #[trigger] s1[j]) by {
                                assert(s1[i] == lb[i - b - len1] && s1[j] == lb[j - b - len1]);
                            }
                        }
                    }
                }
                let found_len = if frag_type != 0 {
                    grail_binary_search(arr, b + len1, len2, &arr[b], false, cmp, Ghost(r))
                } else {
                    grail_binary_search(arr, b + len1, len2, &arr[b], true, cmp, Ghost(r))
                };
                proof {
                    if g {
                        let lb1 = lb.subrange(0, ix(found_len));
                        let lb2 = lb.subrange(ix(found_len), len_of(lb));
                        assert(lb =~= lb1 + lb2);
                        assert forall|i: int| 0 <= i < lb1.len() implies (lf == 0 ==> lt(r, #[trigger] lb1[i], la[0]))
                            && (lf == 1 ==> !lt(r, la[0], lb1[i])) by {
                            assert(lb1[i] == s1[b + len1 + i]);
                        }
                        lemma_frag_take_b(la, lb1, lb2, lf, r);
                        lemma_frag_rest_take_b(la, lb1, lb2, lf, r);
                    }
                }
                if found_len != 0 {
                    grail_rotate(arr, b, len1, found_len);
                    proof {
                        if g {
                            let s2 = arr@;
                            let lb1 = lb.subrange(0, ix(found_len));
                            assert(s2.subrange(ix(base), b + found_len) =~= s1.subrange(ix(base), ix(b)) + lb1) by {
                                assert forall|i: int| b <= i < b + found_len implies #[trigger] s2[i] == lb1[i - b] by {
                                    assert(s2[i] == s1[i + len1]);
                                }
                            }
                            assert(s2.subrange(b + found_len, b + found_len + len1) =~= la) by {
                                assert forall|i: int| b + found_len <= i < b + found_len + len1 implies #[trigger] s2[i] == la[i - b - found_len] by {
                                    assert(s2[i] == s1[i - found_len]);
                                    assert(s1.subrange(ix(b), b + len1)[i - b - found_len] == s1[i - found_len]);
                                }
                            }
                            assert(s2.subrange(b + found_len + len1, end) =~= lb.subrange(ix(found_len), len_of(lb))) by {
                                assert forall|i: int| b + found_len + len1 <= i < end implies #[trigger] s2[i] == lb[i - b - len1] by {
                                    assert(s2[i] == s1[i]);
                                }
                            }
                        }
                    }
                    b += found_len;
                    len2 -= found_len;
                }
                proof {
                    if g {
                        let lb1 = lb.subrange(0, ix(found_len));
                        assert(lb.subrange(ix(found_len), len_of(lb)) =~= b0.subrange(reg_block_len - len2, ix(reg_block_len)));
                        assert(arr@.subrange(ix(base), ix(b)) + frag_merged(la, b0.subrange(reg_block_len - len2, ix(reg_block_len)), lf, r)
                            =~= s1.subrange(ix(base), b - found_len) + frag_merged(la, lb, lf, r));
                        assert(arr@.subrange(ix(b), b + len1) == la);
                        assert(arr@.subrange(b + len1, end) == b0.subrange(reg_block_len - len2, ix(reg_block_len)));
                    }
                }
                if len2 == 0 {
                    *left_over_len = len1;
                    proof {
                        assert(reg_block_len != 0);
                        if g {
                            let lb2 = b0.subrange(reg_block_len - len2, ix(reg_block_len));
                            assert(lb2.len() == 0);
                            lemma_frag_merge_step(la, lb2, lf, r);
                            assert(arr@.subrange(ix(base), end) =~= arr@.subrange(ix(base), ix(b)) + arr@.subrange(ix(b), b + len1));
                            assert(arr@.subrange(end - len1, end) =~= arr@.subrange(ix(b), b + len1));
                        }
                    }
                    return;
                }
                let ghost before = len1;
                proof {
                    if g {
                        let lb2 = b0.subrange(reg_block_len - len2, ix(reg_block_len));
                        assert(lb2[0] == arr@[b + len1]) by {
                            assert(arr@.subrange(b + len1, end)[0] == arr@[b + len1]);
                        }
                        assert((lf == 0 && !lt(r, arr@[b + len1], arr@[ix(b)])) || (lf == 1 && lt(r, arr@[ix(b)], arr@[b + len1])));
                    }
                }
                loop
                    invariant_except_break
                        len1 >= 1,
                        len1 <= before,
                        g ==> ((lf == 0 && !lt(r, arr@[b + len1], arr@[ix(b)])) || (lf == 1 && lt(r, arr@[ix(b)], arr@[b + len1]))),
                    invariant
                        target == frag_merged(a0, b0, lf, r),
                        compares_by(*cmp, r),
                        is_total_preorder(r),
                        n == s0.len(),
                        arr@.len() == n,
                        end == base + lol0 + reg_block_len,
                        end <= n,
                        0 <= frag_type <= 1,
                        lf == 1 - frag_type,
                        base <= b,
                        b + len1 + len2 == end,
                        1 <= len2 <= reg_block_len,
                        len1 <= lol0,
                        arr@.to_multiset() == s0.to_multiset(),
                        forall|k: int| 0 <= k < n && !(base <= k < end) ==> #[trigger] arr@[k] == s0[k],
                        a0.len() == lol0,
                        b0.len() == reg_block_len,
                        g ==> {
                            &&& arr@.subrange(ix(b), b + len1) == a0.subrange(lol0 - len1, ix(lol0))
                            &&& arr@.subrange(b + len1, end) == b0.subrange(reg_block_len - len2, ix(reg_block_len))
                            &&& arr@.subrange(ix(base), ix(b)) + frag_merged(a0.subrange(lol0 - len1, ix(lol0)),
                                b0.subrange(reg_block_len - len2, ix(reg_block_len)), lf, r) == target
                            &&& frag_rest_len(a0.subrange(lol0 - len1, ix(lol0)), b0.subrange(reg_block_len - len2, ix(reg_block_len)), lf, r)
                                == frag_rest_len(a0, b0, lf, r)
                            &&& frag_rest_of_a(a0.subrange(lol0 - len1, ix(lol0)), b0.subrange(reg_block_len - len2, ix(reg_block_len)), lf, r)
                                == frag_rest_of_a(a0, b0, lf, r)
                        },
                    ensures
                        base <= b,
                        b + len1 + len2 == end,
                        len1 < before,
                    decreases len1,
                {
                    let ghost s3 = arr@;
                    proof {
                        if g {
                            let la = a0.subrange(lol0 - len1, ix(lol0));
                            let lb = b0.subrange(reg_block_len - len2, ix(reg_block_len));
                            assert(la[0] == s3[ix(b)]) by {
                                assert(s3.subrange(ix(b), b + len1)[0] == s3[ix(b)]);
                            }
                            assert(lb[0] == s3[b + len1]) by {
                                assert(s3.subrange(b + len1, end)[0] == s3[b + len1]);
                            }
                            lemma_frag_merge_step(la, lb, lf, r);
                            assert(la.drop_first() =~= a0.subrange(lol0 - len1 + 1, ix(lol0)));
                            assert(s3.subrange(ix(base), b + 1) =~= s3.subrange(ix(base), ix(b)).push(la[0]));
                            assert(s3.subrange(ix(base), b + 1) + frag_merged(la.drop_first(), lb, lf, r)
                                =~= s3.subrange(ix(base), ix(b)) + frag_merged(la, lb, lf, r));
                            assert(s3.subrange(b + 1, b + len1) =~= s3.subrange(ix(b), b + len1).drop_first());
                        }
                    }
                    b += 1;
                    len1 -= 1;
                    if len1 == 0 {
                        break;
                    }
                    proof {
                        if g {
                            assert(arr@[ix(b)] == arr@.subrange(ix(b), b + len1)[0]);
                            assert(arr@[b + len1] == arr@.subrange(b + len1, end)[0]);
                        }
                    }
                    let comparison = ordering_number(cmp(&arr[b], &arr[b + len1])) - frag_type;
                    if comparison >= 0 {
                        break;
                    }
                }
            }
            proof {
                if g {
                    let lb = b0.subrange(reg_block_len - len2, ix(reg_block_len));
                    lemma_frag_merge_step(a0.subrange(lol0 - len1, ix(lol0)), lb, lf, r);
                }
            }
        } else {
            proof {
                if g {
                    assert(s[b + len1 - 1] == a0[a0.len() - 1]);
                    lemma_frag_ordered(a0, b0, lf, r);
                    assert forall|i: int| 0 <= i < a0.len() implies (lf == 0 ==> !lt(r, b0[0], #[trigger] a0[i]))
                        && (lf == 1 ==> lt(r, a0[i], b0[0])) by {
                        assert(a0[i] == s0[base + i] && a0[a0.len() - 1] == s0[base + a0.len() - 1]);
                        assert(le(r, a0[i], a0[a0.len() - 1]));
                    }
                    lemma_frag_rest_take_a(a0, Seq::<T>::empty(), b0, lf, r);
                    assert(a0 + Seq::<T>::empty() =~= a0);
                    lemma_frag_merge_step(Seq::<T>::empty(), b0, lf, r);
                    assert(a0.subrange(0, 0) =~= Seq::<T>::empty());
                    assert(arr@.subrange(ix(base), ix(base)) + b0.subrange(0, ix(reg_block_len)) =~= b0);
                    assert(b0.subrange(0, ix(reg_block_len)) =~= b0);
                    assert(arr@.subrange(ix(base), end) =~= a0 + b0);
                }
            }
        }
    } else {
        proof {
            if g {
                lemma_frag_merge_step(a0, b0, lf, r);
            }
        }
    }
    proof {
        if g {
            assert(arr@.subrange(ix(base), end) =~= arr@.subrange(ix(base), end - len2) + arr@.subrange(end - len2, end));
        }
    }
    *left_over_len = len2;
    *left_over_frag = frag_type;
}

/// Whether the item of `key` comes before the item of `midkey`: 0 for the
/// blocks that came from the first run, 1 for those from the second.
fn key_fragment<T, F>(arr: &[T], key: usize, midkey: usize, cmp: &F, Ghost(r): Ghost<spec_fn(T, T) -> Ordering>) -> (frag: isize)
    where
        F: Fn(&T, &T) -> Ordering,
    requires
        compares_by(*cmp, r),
        key < arr@.len(),
        midkey < arr@.len(),
    ensures
        frag == if r(arr@[ix(key)], arr@[ix(midkey)]) == Ordering::Less { 0int } else { 1int },
{
    match cmp(&arr[key], &arr[midkey]) {
        Ordering::Less => 0,
        _ => 1,
    }
}

/// Block `i` of `reg` items from `base` in `s`.
pub open spec fn block_at<T>(s: Seq<T>, base: int, reg: int, i: int) -> Seq<T> {
    s.subrange(base + i * reg, base + i * reg + reg)
}

/// The run that block `i` came from, by its key: 0 for a key less than the
/// one at `midkey` (the first run), 1 otherwise.
pub open spec fn frag_at<T>(s: Seq<T>, keys: int, midkey: int, i: int, r: spec_fn(T, T) -> Ordering) -> int {
    if lt(r, s[keys + i], s[midkey]) { 0 } else { 1 }
}

/// The blocks from `i` up to `m` that came from run `f`, one after another.
pub open spec fn run_blocks<T>(s: Seq<T>, keys: int, midkey: int, base: int, reg: int, m: int, i: int, f: int, r: spec_fn(T, T) -> Ordering) -> Seq<T>
    decreases m - i,
{
    if i >= m {
        Seq::empty()
    } else if frag_at(s, keys, midkey, i, r) == f {
        block_at(s, base, reg, i) + run_blocks(s, keys, midkey, base, reg, m, i + 1, f, r)
    } else {
        run_blocks(s, keys, midkey, base, reg, m, i + 1, f, r)
    }
}

/// How the blocks of one group stand before they are merged: each of the
/// `m` tagged blocks came whole from the first run (A) or the second (B);
/// A is the A-blocks in order followed by `ka` more blocks, B the B-blocks
/// in order followed by the last piece of `ll` items; both are sorted; the
/// tagged blocks are ordered by their first items, A before B among equal
/// ones; they begin no later than the last piece, and the `ka` blocks after
/// it.
pub open spec fn blocks_laid_out<T>(s: Seq<T>, keys: int, midkey: int, base: int, reg: int, m: int, ka: int, ll: int, r: spec_fn(T, T) -> Ordering) -> bool {
    let a_all = run_blocks(s, keys, midkey, base, reg, m, 0, 0, r) + s.subrange(base + m * reg, base + (m + ka) * reg);
    let b_all = run_blocks(s, keys, midkey, base, reg, m, 0, 1, r) + s.subrange(base + (m + ka) * reg, base + (m + ka) * reg + ll);
    &&& reg >= 1
    &&& sorted_seq(a_all, r)
    &&& sorted_seq(b_all, r)
    &&& forall|i: int, j: int| 0 <= i < j < m ==> le(r, #[trigger] s[base + i * reg], #[trigger] s[base + j * reg])
        && (r(s[base + i * reg], s[base + j * reg]) == Ordering::Equal
            ==> frag_at(s, keys, midkey, i, r) <= frag_at(s, keys, midkey, j, r))
    &&& ll > 0 ==> forall|i: int| 0 <= i < m ==> le(r, #[trigger] s[base + i * reg], s[base + (m + ka) * reg])
    &&& ll > 0 && ka > 0 ==> lt(r, s[base + (m + ka) * reg], s[base + m * reg])
    &&& ll == 0 ==> ka == 0
}

/// The head of the blocks of a run from `i` on is the first item of one of
/// them.
proof fn lemma_run_blocks_head<T>(s: Seq<T>, keys: int, midkey: int, base: int, reg: int, m: int, i: int, f: int, r: spec_fn(T, T) -> Ordering)
    requires
        reg >= 1,
        0 <= i,
        0 <= base,
        base + m * reg <= s.len(),
        run_blocks(s, keys, midkey, base, reg, m, i, f, r).len() > 0,
    ensures
        exists|j: int| i <= j < m && frag_at(s, keys, midkey, j, r) == f
            && #[trigger] run_blocks(s, keys, midkey, base, reg, m, i, f, r)[0] == s[base + j * reg],
    decreases m - i,
{
    if i < m {
        assert(i * reg + reg <= m * reg) by (nonlinear_arith) requires i < m, reg >= 1;
        assert(i * reg >= 0) by (nonlinear_arith) requires i >= 0, reg >= 1;
        if frag_at(s, keys, midkey, i, r) == f {
            assert(run_blocks(s, keys, midkey, base, reg, m, i, f, r)[0] == block_at(s, base, reg, i)[0]);
        } else {
            lemma_run_blocks_head(s, keys, midkey, base, reg, m, i + 1, f, r);
        }
    }
}

/// The merge of `a1 + a2` and `b1 + b2` begins as the merge of `a1` and
/// `b1` until one of them runs out, and goes on with what is left.
#[verifier::spinoff_prover]
#[verifier::rlimit(60)]
proof fn lemma_merge_prefix<T>(a1: Seq<T>, a2: Seq<T>, b1: Seq<T>, b2: Seq<T>, r: spec_fn(T, T) -> Ordering)
    ensures
        ({
            let k = int_of(merge_rest_len(a1, b1, r));
            let m = merged(a1, b1, r);
            &&& m.len() == a1.len() + b1.len()
            &&& (merge_rest_of_first(a1, b1, r) ==> k <= a1.len() && m.subrange(m.len() - k, len_of(m)) == a1.subrange(a1.len() - k, len_of(a1)))
            &&& (!merge_rest_of_first(a1, b1, r) ==> k <= b1.len() && m.subrange(m.len() - k, len_of(m)) == b1.subrange(b1.len() - k, len_of(b1)))
            &&& merged(a1 + a2, b1 + b2, r) == m.subrange(0, m.len() - k) + merged(
                (if merge_rest_of_first(a1, b1, r) { a1.subrange(a1.len() - k, len_of(a1)) } else { Seq::empty() }) + a2,
                (if merge_rest_of_first(a1, b1, r) { Seq::empty() } else { b1.subrange(b1.len() - k, len_of(b1)) }) + b2,
                r,
            )
        }),
    decreases a1.len() + b1.len(),
{
    let k = int_of(merge_rest_len(a1, b1, r));
    let m = merged(a1, b1, r);
    if a1.len() == 0 {
        assert(m == b1);
        assert(m.subrange(0, m.len() - k) =~= Seq::<T>::empty());
        assert(b1.subrange(b1.len() - k, len_of(b1)) =~= b1);
        assert(a1 + a2 =~= Seq::<T>::empty() + a2);
        assert(Seq::<T>::empty() + merged(Seq::<T>::empty() + a2, b1 + b2, r) =~= merged(a1 + a2, b1 + b2, r));
        assert(m.subrange(m.len() - k, len_of(m)) =~= b1);
    } else if b1.len() == 0 {
        assert(m == a1);
        assert(m.subrange(0, m.len() - k) =~= Seq::<T>::empty());
        assert(a1.subrange(a1.len() - k, len_of(a1)) =~= a1);
        assert(b1 + b2 =~= Seq::<T>::empty() + b2);
        assert(Seq::<T>::empty() + merged(a1 + a2, Seq::<T>::empty() + b2, r) =~= merged(a1 + a2, b1 + b2, r));
        assert(m.subrange(m.len() - k, len_of(m)) =~= a1);
    } else if lt(r, b1[0], a1[0]) {
        let bd = b1.drop_first();
        lemma_merge_prefix(a1, a2, bd, b2, r);
        assert((b1 + b2)[0] == b1[0]);
        assert((a1 + a2)[0] == a1[0]);
        assert((b1 + b2).drop_first() =~= bd + b2);
        assert(m == seq![b1[0]] + merged(a1, bd, r));
        let m2 = merged(a1, bd, r);
        assert(m.subrange(0, m.len() - k) =~= seq![b1[0]] + m2.subrange(0, m2.len() - k));
        assert(m.subrange(m.len() - k, len_of(m)) =~= m2.subrange(m2.len() - k, len_of(m2)));
        if !merge_rest_of_first(a1, b1, r) {
            assert(bd.subrange(bd.len() - k, len_of(bd)) =~= b1.subrange(b1.len() - k, len_of(b1)));
        }
        let rest = merged(
            (if merge_rest_of_first(a1, b1, r) { a1.subrange(a1.len() - k, len_of(a1)) } else { Seq::empty() }) + a2,
            (if merge_rest_of_first(a1, b1, r) { Seq::empty() } else { b1.subrange(b1.len() - k, len_of(b1)) }) + b2,
            r,
        );
        assert(seq![b1[0]] + (m2.subrange(0, m2.len() - k) + rest) =~= m.subrange(0, m.len() - k) + rest);
    } else {
        let ad = a1.drop_first();
        lemma_merge_prefix(ad, a2, b1, b2, r);
        assert((b1 + b2)[0] == b1[0]);
        assert((a1 + a2)[0] == a1[0]);
        assert((a1 + a2).drop_first() =~= ad + a2);
        assert(m == seq![a1[0]] + merged(ad, b1, r));
        let m2 = merged(ad, b1, r);
        assert(m.subrange(0, m.len() - k) =~= seq![a1[0]] + m2.subrange(0, m2.len() - k));
        assert(m.subrange(m.len() - k, len_of(m)) =~= m2.subrange(m2.len() - k, len_of(m2)));
        if merge_rest_of_first(a1, b1, r) {
            assert(ad.subrange(ad.len() - k, len_of(ad)) =~= a1.subrange(a1.len() - k, len_of(a1)));
        }
        let rest = merged(
            (if merge_rest_of_first(a1, b1, r) { a1.subrange(a1.len() - k, len_of(a1)) } else { Seq::empty() }) + a2,
            (if merge_rest_of_first(a1, b1, r) { Seq::empty() } else { b1.subrange(b1.len() - k, len_of(b1)) }) + b2,
            r,
        );
        assert(seq![a1[0]] + (m2.subrange(0, m2.len() - k) + rest) =~= m.subrange(0, m.len() - k) + rest);
    }
}

/// What is left of run A: the left-over piece if it is of A, the A-blocks
/// from `i` on and the `ka` blocks after the tagged ones.
pub open spec fn rest_a<T>(s: Seq<T>, keys: int, midkey: int, base: int, reg: int, m: int, ka: int, i: int, f: isize, lo: Seq<T>, r: spec_fn(T, T) -> Ordering) -> Seq<T> {
    (if f == 0 { lo } else { Seq::empty() }) + run_blocks(s, keys, midkey, base, reg, m, i, 0, r)
        + s.subrange(base + m * reg, base + (m + ka) * reg)
}

/// What is left of run B: the left-over piece if it is of B, the B-blocks
/// from `i` on and the last piece.
pub open spec fn rest_b<T>(s: Seq<T>, keys: int, midkey: int, base: int, reg: int, m: int, ka: int, ll: int, i: int, f: isize, lo: Seq<T>, r: spec_fn(T, T) -> Ordering) -> Seq<T> {
    (if f == 1 { lo } else { Seq::empty() }) + run_blocks(s, keys, midkey, base, reg, m, i, 1, r)
        + s.subrange(base + (m + ka) * reg, base + (m + ka) * reg + ll)
}

/// Block `i` of a run's blocks from `i` on comes first.
proof fn lemma_run_blocks_step<T>(s: Seq<T>, keys: int, midkey: int, base: int, reg: int, m: int, i: int, r: spec_fn(T, T) -> Ordering)
    requires
        0 <= i < m,
    ensures
        frag_at(s, keys, midkey, i, r) == 0 ==> run_blocks(s, keys, midkey, base, reg, m, i, 0, r)
            == block_at(s, base, reg, i) + run_blocks(s, keys, midkey, base, reg, m, i + 1, 0, r)
            && run_blocks(s, keys, midkey, base, reg, m, i, 1, r) == run_blocks(s, keys, midkey, base, reg, m, i + 1, 1, r),
        frag_at(s, keys, midkey, i, r) == 1 ==> run_blocks(s, keys, midkey, base, reg, m, i, 1, r)
            == block_at(s, base, reg, i) + run_blocks(s, keys, midkey, base, reg, m, i + 1, 1, r)
            && run_blocks(s, keys, midkey, base, reg, m, i, 0, r) == run_blocks(s, keys, midkey, base, reg, m, i + 1, 0, r),
        frag_at(s, keys, midkey, i, r) == 0 || frag_at(s, keys, midkey, i, r) == 1,
{
}

/// When the next block is of the same run as the left-over piece, the piece
/// comes out whole before anything that is left.
proof fn lemma_same_run_step<T>(s: Seq<T>, keys: int, midkey: int, base: int, reg: int, m: int, ka: int, ll: int, i: int, f: isize, lo: Seq<T>, r: spec_fn(T, T) -> Ordering)
    requires
        is_total_preorder(r),
        blocks_laid_out(s, keys, midkey, base, reg, m, ka, ll, r),
        0 <= base,
        0 <= ka,
        0 <= ll,
        base + (m + ka) * reg + ll <= s.len(),
        0 <= i < m,
        frag_at(s, keys, midkey, i, r) == f,
        sorted_seq(rest_a(s, keys, midkey, base, reg, m, ka, i, f, lo, r), r),
        sorted_seq(rest_b(s, keys, midkey, base, reg, m, ka, ll, i, f, lo, r), r),
    ensures
        sorted_seq(rest_a(s, keys, midkey, base, reg, m, ka, i + 1, f, block_at(s, base, reg, i), r), r),
        sorted_seq(rest_b(s, keys, midkey, base, reg, m, ka, ll, i + 1, f, block_at(s, base, reg, i), r), r),
        merged(rest_a(s, keys, midkey, base, reg, m, ka, i, f, lo, r), rest_b(s, keys, midkey, base, reg, m, ka, ll, i, f, lo, r), r)
            == lo + merged(rest_a(s, keys, midkey, base, reg, m, ka, i + 1, f, block_at(s, base, reg, i), r),
                rest_b(s, keys, midkey, base, reg, m, ka, ll, i + 1, f, block_at(s, base, reg, i), r), r),
{
    lemma_order_facts(r);
    lemma_run_blocks_step(s, keys, midkey, base, reg, m, i, r);
    let blk = block_at(s, base, reg, i);
    let ab = s.subrange(base + m * reg, base + (m + ka) * reg);
    let lp = s.subrange(base + (m + ka) * reg, base + (m + ka) * reg + ll);
    let ra0 = run_blocks(s, keys, midkey, base, reg, m, i + 1, 0, r);
    let rb0 = run_blocks(s, keys, midkey, base, reg, m, i + 1, 1, r);
    assert(i * reg + reg <= m * reg) by (nonlinear_arith) requires i < m, reg >= 1;
    assert(i * reg >= 0) by (nonlinear_arith) requires i >= 0, reg >= 1;
    assert(m * reg <= (m + ka) * reg) by (nonlinear_arith) requires ka >= 0, reg >= 1;
    assert(blk.len() == reg);
    assert(blk[0] == s[base + i * reg]);
    let x0 = s[base + i * reg];
    if f == 0 {
        let a = rest_a(s, keys, midkey, base, reg, m, ka, i, f, lo, r);
        let b = rest_b(s, keys, midkey, base, reg, m, ka, ll, i, f, lo, r);
        assert(a =~= lo + (blk + ra0 + ab));
        assert(b =~= run_blocks(s, keys, midkey, base, reg, m, i, 1, r) + lp);
        // Every item of the piece is at most the first of the block.
        assert forall|p: int| 0 <= p < lo.len() implies le(r, #[trigger] lo[p], x0) by {
            assert(a[p] == lo[p]);
            assert(a[len_of(lo)] == x0);
        }
        if b.len() > 0 {
            let y = b[0];
            if run_blocks(s, keys, midkey, base, reg, m, i, 1, r).len() > 0 {
                lemma_run_blocks_head(s, keys, midkey, base, reg, m, i, 1, r);
                let j = choose|j: int| i <= j < m && frag_at(s, keys, midkey, j, r) == 1
                    && #[trigger] run_blocks(s, keys, midkey, base, reg, m, i, 1, r)[0] == s[base + j * reg];
                assert(j != i);
                assert(le(r, s[base + i * reg], s[base + j * reg]));
                assert(y == s[base + j * reg]);
            } else {
                assert(ll > 0);
                assert(y == s[base + (m + ka) * reg]);
                assert(le(r, s[base + i * reg], s[base + (m + ka) * reg]));
            }
            assert forall|p: int| 0 <= p < lo.len() implies !lt(r, y, #[trigger] lo[p]) by {
                assert(le(r, lo[p], x0));
            }
            lemma_merge_take_a(lo, blk + ra0 + ab, b, r);
        } else {
            lemma_merge_empty(a, b, r);
            lemma_merge_empty(blk + ra0 + ab, b, r);
        }
        assert(rest_a(s, keys, midkey, base, reg, m, ka, i + 1, f, blk, r) =~= blk + ra0 + ab);
        assert(rest_b(s, keys, midkey, base, reg, m, ka, ll, i + 1, f, blk, r) =~= b);
        lemma_sorted_suffix(lo, blk + ra0 + ab, len_of(lo), r);
        assert(lo.subrange(len_of(lo), len_of(lo)) + (blk + ra0 + ab) =~= blk + ra0 + ab);
    } else {
        let a = rest_a(s, keys, midkey, base, reg, m, ka, i, f, lo, r);
        let b = rest_b(s, keys, midkey, base, reg, m, ka, ll, i, f, lo, r);
        assert(b =~= lo + (blk + rb0 + lp));
        assert(a =~= run_blocks(s, keys, midkey, base, reg, m, i, 0, r) + ab);
        assert forall|p: int| 0 <= p < lo.len() implies le(r, #[trigger] lo[p], x0) by {
            assert(b[p] == lo[p]);
            assert(b[len_of(lo)] == x0);
        }
        if a.len() > 0 {
            let y = a[0];
            if run_blocks(s, keys, midkey, base, reg, m, i, 0, r).len() > 0 {
                lemma_run_blocks_head(s, keys, midkey, base, reg, m, i, 0, r);
                let j = choose|j: int| i <= j < m && frag_at(s, keys, midkey, j, r) == 0
                    && #[trigger] run_blocks(s, keys, midkey, base, reg, m, i, 0, r)[0] == s[base + j * reg];
                assert(j != i);
                assert(le(r, s[base + i * reg], s[base + j * reg]));
                assert(r(s[base + i * reg], s[base + j * reg]) != Ordering::Equal);
                assert(y == s[base + j * reg]);
                assert(lt(r, x0, y));
            } else {
                assert(ka > 0);
                assert(ll > 0);
                assert(y == s[base + m * reg]);
                assert(le(r, s[base + i * reg], s[base + (m + ka) * reg]));
                assert(lt(r, x0, y));
            }
            assert forall|p: int| 0 <= p < lo.len() implies lt(r, #[trigger] lo[p], y) by {
                assert(le(r, lo[p], x0));
            }
            lemma_merge_take_b(a, lo, blk + rb0 + lp, r);
        } else {
            lemma_merge_empty(a, b, r);
            lemma_merge_empty(a, blk + rb0 + lp, r);
        }
        assert(rest_b(s, keys, midkey, base, reg, m, ka, ll, i + 1, f, blk, r) =~= blk + rb0 + lp);
        assert(rest_a(s, keys, midkey, base, reg, m, ka, i + 1, f, blk, r) =~= a);
        lemma_sorted_suffix(lo, blk + rb0 + lp, len_of(lo), r);
        assert(lo.subrange(len_of(lo), len_of(lo)) + (blk + rb0 + lp) =~= blk + rb0 + lp);
    }
}

/// What follows a cut of a sorted sequence is sorted.
proof fn lemma_sorted_suffix<T>(x: Seq<T>, y: Seq<T>, j: int, r: spec_fn(T, T) -> Ordering)
    requires
        sorted_seq(x + y, r),
        0 <= j <= x.len(),
    ensures
        sorted_seq(x.subrange(j, len_of(x)) + y, r),
{
    let z = x.subrange(j, len_of(x)) + y;
    assert forall|p: int, q: int| 0 <= p <= q < z.len() implies le(r, #[trigger] z[p], #[trigger] z[q]) by {
        assert(z[p] == (x + y)[p + j]);
        assert(z[q] == (x + y)[q + j]);
    }
}

/// When the next block is of the other run than the left-over piece, the
/// two merge until one runs out; what is left of it is the new piece.
#[verifier::rlimit(40)]
proof fn lemma_other_run_step<T>(s: Seq<T>, keys: int, midkey: int, base: int, reg: int, m: int, ka: int, ll: int, i: int, f: isize, lo: Seq<T>, f2: isize, lo2: Seq<T>, r: spec_fn(T, T) -> Ordering)
    requires
        0 <= base,
        0 <= ka,
        0 <= ll,
        reg >= 1,
        base + (m + ka) * reg + ll <= s.len(),
        0 <= i < m,
        0 <= f <= 1,
        frag_at(s, keys, midkey, i, r) == 1 - f,
        sorted_seq(rest_a(s, keys, midkey, base, reg, m, ka, i, f, lo, r), r),
        sorted_seq(rest_b(s, keys, midkey, base, reg, m, ka, ll, i, f, lo, r), r),
        ({
            let blk = block_at(s, base, reg, i);
            let k = int_of(frag_rest_len(lo, blk, f, r));
            &&& k <= lo.len() + reg
            &&& lo2.len() == k
            &&& (f2 == f && lo2 == lo.subrange(lo.len() - k, len_of(lo)))
                || (f2 == 1 - f && lo2 == blk.subrange(blk.len() - k, len_of(blk)))
            &&& k > 0 ==> (f2 == f <==> frag_rest_of_a(lo, blk, f, r))
        }),
    ensures
        ({
            let blk = block_at(s, base, reg, i);
            let k = int_of(frag_rest_len(lo, blk, f, r));
            let mm = frag_merged(lo, blk, f, r);
            &&& mm.len() == lo.len() + reg
            &&& merged(rest_a(s, keys, midkey, base, reg, m, ka, i, f, lo, r), rest_b(s, keys, midkey, base, reg, m, ka, ll, i, f, lo, r), r)
                == mm.subrange(0, mm.len() - k) + merged(rest_a(s, keys, midkey, base, reg, m, ka, i + 1, f2, lo2, r),
                    rest_b(s, keys, midkey, base, reg, m, ka, ll, i + 1, f2, lo2, r), r)
        }),
        sorted_seq(rest_a(s, keys, midkey, base, reg, m, ka, i + 1, f2, lo2, r), r),
        sorted_seq(rest_b(s, keys, midkey, base, reg, m, ka, ll, i + 1, f2, lo2, r), r),
{
    lemma_run_blocks_step(s, keys, midkey, base, reg, m, i, r);
    assert(i * reg + reg <= m * reg) by (nonlinear_arith) requires i < m, reg >= 1;
    assert(i * reg >= 0) by (nonlinear_arith) requires i >= 0, reg >= 1;
    assert(m * reg <= (m + ka) * reg) by (nonlinear_arith) requires ka >= 0, reg >= 1;
    let blk = block_at(s, base, reg, i);
    assert(blk.len() == reg);
    let k = int_of(frag_rest_len(lo, blk, f, r));
    let ab = s.subrange(base + m * reg, base + (m + ka) * reg);
    let lp = s.subrange(base + (m + ka) * reg, base + (m + ka) * reg + ll);
    let ra1 = run_blocks(s, keys, midkey, base, reg, m, i + 1, 0, r);
    let rb1 = run_blocks(s, keys, midkey, base, reg, m, i + 1, 1, r);
    let na = rest_a(s, keys, midkey, base, reg, m, ka, i + 1, f2, lo2, r);
    let nb = rest_b(s, keys, midkey, base, reg, m, ka, ll, i + 1, f2, lo2, r);
    if f == 0 {
        let a = rest_a(s, keys, midkey, base, reg, m, ka, i, f, lo, r);
        let b = rest_b(s, keys, midkey, base, reg, m, ka, ll, i, f, lo, r);
        assert(a =~= lo + (ra1 + ab));
        assert(b =~= blk + (rb1 + lp));
        lemma_merge_prefix(lo, ra1 + ab, blk, rb1 + lp, r);
        let fst = merge_rest_of_first(lo, blk, r);
        if fst {
            if k > 0 {
                assert(f2 == f);
            }
            assert(na =~= lo.subrange(lo.len() - k, len_of(lo)) + (ra1 + ab));
            assert(nb =~= Seq::<T>::empty() + (rb1 + lp));
            lemma_sorted_suffix(lo, ra1 + ab, lo.len() - k, r);
            lemma_sorted_suffix(blk, rb1 + lp, len_of(blk), r);
            assert(blk.subrange(len_of(blk), len_of(blk)) + (rb1 + lp) =~= Seq::<T>::empty() + (rb1 + lp));
        } else {
            if k > 0 {
                assert(f2 != f);
            }
            assert(na =~= Seq::<T>::empty() + (ra1 + ab));
            assert(nb =~= blk.subrange(blk.len() - k, len_of(blk)) + (rb1 + lp));
            lemma_sorted_suffix(lo, ra1 + ab, len_of(lo), r);
            assert(lo.subrange(len_of(lo), len_of(lo)) + (ra1 + ab) =~= Seq::<T>::empty() + (ra1 + ab));
            lemma_sorted_suffix(blk, rb1 + lp, blk.len() - k, r);
        }
    } else {
        let a = rest_a(s, keys, midkey, base, reg, m, ka, i, f, lo, r);
        let b = rest_b(s, keys, midkey, base, reg, m, ka, ll, i, f, lo, r);
        assert(a =~= blk + (ra1 + ab));
        assert(b =~= lo + (rb1 + lp));
        lemma_merge_prefix(blk, ra1 + ab, lo, rb1 + lp, r);
        let fst = merge_rest_of_first(blk, lo, r);
        if fst {
            if k > 0 {
                assert(f2 != f);
            }
            assert(na =~= blk.subrange(blk.len() - k, len_of(blk)) + (ra1 + ab));
            assert(nb =~= Seq::<T>::empty() + (rb1 + lp));
            lemma_sorted_suffix(blk, ra1 + ab, blk.len() - k, r);
            lemma_sorted_suffix(lo, rb1 + lp, len_of(lo), r);
            assert(lo.subrange(len_of(lo), len_of(lo)) + (rb1 + lp) =~= Seq::<T>::empty() + (rb1 + lp));
        } else {
            if k > 0 {
                assert(f2 == f);
            }
            assert(na =~= Seq::<T>::empty() + (ra1 + ab));
            assert(nb =~= lo.subrange(lo.len() - k, len_of(lo)) + (rb1 + lp));
            lemma_sorted_suffix(blk, ra1 + ab, len_of(blk), r);
            assert(blk.subrange(len_of(blk), len_of(blk)) + (ra1 + ab) =~= Seq::<T>::empty() + (ra1 + ab));
            lemma_sorted_suffix(lo, rb1 + lp, lo.len() - k, r);
        }
    }
}

/// What comes before a cut of a sorted sequence is sorted.
proof fn lemma_sorted_prefix<T>(x: Seq<T>, y: Seq<T>, r: spec_fn(T, T) -> Ordering)
    requires
        sorted_seq(x + y, r),
    ensures
        sorted_seq(x, r),
{
    assert forall|p: int, q: int| 0 <= p <= q < x.len() implies le(r, #[trigger] x[p], #[trigger] x[q]) by {
        assert(x[p] == (x + y)[p] && x[q] == (x + y)[q]);
    }
}

/// A range of `s` is sorted exactly when its items are.
proof fn lemma_sorted_range<T>(s: Seq<T>, lo: int, hi: int, r: spec_fn(T, T) -> Ordering)
    requires
        0 <= lo <= hi <= s.len(),
    ensures
        sorted_seq(s.subrange(lo, hi), r) <==> sorted_between(s, lo, hi, r),
{
    let t = s.subrange(lo, hi);
    if sorted_seq(t, r) {
        assert forall|i: int, j: int| lo <= i <= j < hi implies le(r, #[trigger] s[i], #[trigger] s[j]) by {
            assert(s[i] == t[i - lo] && s[j] == t[j - lo]);
        }
    }
    if sorted_between(s, lo, hi, r) {
        assert forall|i: int, j: int| 0 <= i <= j < t.len() implies le(r, #[trigger] t[i], #[trigger] t[j]) by {
            assert(t[i] == s[lo + i] && t[j] == s[lo + j]);
        }
    }
}

/// Once every block is through, what is left of A and B is the left-over
/// piece with the blocks after the tagged ones and the last piece; a piece
/// of B comes out whole before them.
proof fn lemma_last_piece<T>(s: Seq<T>, keys: int, midkey: int, base: int, reg: int, m: int, ka: int, ll: int, f: isize, lo: Seq<T>, r: spec_fn(T, T) -> Ordering)
    requires
        is_total_preorder(r),
        blocks_laid_out(s, keys, midkey, base, reg, m, ka, ll, r),
        0 <= base,
        0 <= m,
        0 <= ka,
        0 <= ll,
        base + (m + ka) * reg + ll <= s.len(),
        0 <= f <= 1,
        sorted_seq(rest_a(s, keys, midkey, base, reg, m, ka, m, f, lo, r), r),
        sorted_seq(rest_b(s, keys, midkey, base, reg, m, ka, ll, m, f, lo, r), r),
    ensures
        ({
            let ab = s.subrange(base + m * reg, base + (m + ka) * reg);
            let lp = s.subrange(base + (m + ka) * reg, base + (m + ka) * reg + ll);
            let a = rest_a(s, keys, midkey, base, reg, m, ka, m, f, lo, r);
            let b = rest_b(s, keys, midkey, base, reg, m, ka, ll, m, f, lo, r);
            &&& f == 0 ==> a == lo + ab && b == lp
            &&& f == 1 ==> a == ab && b == lo + lp
            &&& sorted_seq(lp, r)
            &&& f == 1 ==> sorted_seq(ab, r)
            &&& f == 1 && ll > 0 ==> merged(a, b, r) == lo + merged(ab, lp, r)
            &&& ll == 0 ==> merged(a, b, r) == lo
        }),
{
    lemma_order_facts(r);
    let ab = s.subrange(base + m * reg, base + (m + ka) * reg);
    let lp = s.subrange(base + (m + ka) * reg, base + (m + ka) * reg + ll);
    let a = rest_a(s, keys, midkey, base, reg, m, ka, m, f, lo, r);
    let b = rest_b(s, keys, midkey, base, reg, m, ka, ll, m, f, lo, r);
    assert(run_blocks(s, keys, midkey, base, reg, m, m, 0, r) =~= Seq::<T>::empty());
    assert(run_blocks(s, keys, midkey, base, reg, m, m, 1, r) =~= Seq::<T>::empty());
    assert(m * reg <= (m + ka) * reg) by (nonlinear_arith) requires ka >= 0, reg >= 1;
    assert(m * reg >= 0) by (nonlinear_arith) requires m >= 0, reg >= 1;
    if f == 0 {
        assert(a =~= lo + ab);
        assert(b =~= lp);
    } else {
        assert(a =~= ab);
        assert(b =~= lo + lp);
        lemma_sorted_suffix(lo, lp, len_of(lo), r);
        assert(lo.subrange(len_of(lo), len_of(lo)) + lp =~= lp);
        if ll > 0 {
            if ka > 0 {
                assert(m * reg < (m + ka) * reg) by (nonlinear_arith) requires ka > 0, reg >= 1;
                assert(ab[0] == s[base + m * reg]);
                assert(lp[0] == s[base + (m + ka) * reg]);
                assert forall|p: int| 0 <= p < lo.len() implies lt(r, #[trigger] lo[p], ab[0]) by {
                    assert(b[p] == lo[p]);
                    assert(b[len_of(lo)] == lp[0]);
                    assert(le(r, b[p], b[len_of(lo)]));
                }
                lemma_merge_take_b(ab, lo, lp, r);
            } else {
                lemma_merge_empty(ab, lo + lp, r);
                lemma_merge_empty(ab, lp, r);
            }
        }
    }
    if ll == 0 {
        assert(ka == 0);
        assert(ab =~= Seq::<T>::empty());
        assert(lp =~= Seq::<T>::empty());
        if f == 0 {
            assert(a =~= lo);
            lemma_merge_empty(a, b, r);
        } else {
            assert(b =~= lo);
            lemma_merge_empty(a, b, r);
        }
    }
}

/// Where the merge of the blocks stands: `out` items of the result are in
/// place from `lo`, the left-over piece (of the run `f`) is at
/// `base + out .. base + pi`, every item from `base + pi` on is as it was,
/// and what is left of both runs, from block `i` on, is sorted and merges
/// into the rest of `target`.
#[verifier::opaque]
pub open spec fn merge_state<T>(cur: Seq<T>, s0: Seq<T>, keys: int, midkey: int, base: int, reg: int, m: int, ka: int, ll: int, lo: int, out: int, pi: int, i: int, f: isize, target: Seq<T>, r: spec_fn(T, T) -> Ordering) -> bool {
    let lop = cur.subrange(base + out, base + pi);
    &&& cur.subrange(lo, lo + out) + merged(rest_a(s0, keys, midkey, base, reg, m, ka, i, f, lop, r),
            rest_b(s0, keys, midkey, base, reg, m, ka, ll, i, f, lop, r), r) == target
    &&& sorted_seq(rest_a(s0, keys, midkey, base, reg, m, ka, i, f, lop, r), r)
    &&& sorted_seq(rest_b(s0, keys, midkey, base, reg, m, ka, ll, i, f, lop, r), r)
    &&& forall|k: int| base + pi <= k < cur.len() ==> #[trigger] cur[k] == s0[k]
}

/// The state after a block of the same run as the left-over piece: the
/// piece joins the result (moved there through the buffer, or left where it
/// is), and the block becomes the new piece.
#[verifier::spinoff_prover]
proof fn lemma_state_same<T>(cur: Seq<T>, a0: Seq<T>, s0: Seq<T>, kk: int, mk: int, bs: int, reg: int, m: int, ka: int, ll: int, lo: int, rest: int, lol: int, i: int, f: isize, target: Seq<T>, have_buffer: bool, r: spec_fn(T, T) -> Ordering)
    requires
        is_total_preorder(r),
        blocks_laid_out(s0, kk, mk, bs, reg, m, ka, ll, r),
        0 <= bs,
        0 <= ka,
        0 <= ll,
        0 <= rest,
        0 <= lol <= reg,
        bs + (m + ka) * reg + ll <= s0.len(),
        a0.len() == s0.len(),
        cur.len() == s0.len(),
        0 <= i < m,
        rest + lol == i * reg,
        frag_at(s0, kk, mk, i, r) == f,
        merge_state(a0, s0, kk, mk, bs, reg, m, ka, ll, lo, rest, rest + lol, i, f, target, r),
        have_buffer ==> lo == bs - reg && 0 <= lo && cur == blocks_swapped(a0, bs + rest - reg, bs + rest, lol),
        !have_buffer ==> lo == bs && cur == a0,
    ensures
        merge_state(cur, s0, kk, mk, bs, reg, m, ka, ll, lo, rest + lol, rest + lol + reg, i + 1, f, target, r),
{
    reveal(merge_state);
    let pi0 = rest + lol;
    let lop = a0.subrange(bs + rest, bs + pi0);
    let o0 = a0.subrange(lo, lo + rest);
    let blk = block_at(s0, bs, reg, i);
    assert(i * reg + reg <= m * reg) by (nonlinear_arith) requires i < m, reg >= 1;
    assert(m * reg <= (m + ka) * reg) by (nonlinear_arith) requires ka >= 0, reg >= 1;
    lemma_same_run_step(s0, kk, mk, bs, reg, m, ka, ll, i, f, lop, r);
    assert(cur.subrange(lo, lo + pi0) =~= o0 + lop);
    assert(cur.subrange(bs + pi0, bs + pi0 + reg) =~= blk);
    assert(o0 + (lop + merged(rest_a(s0, kk, mk, bs, reg, m, ka, i + 1, f, blk, r),
        rest_b(s0, kk, mk, bs, reg, m, ka, ll, i + 1, f, blk, r), r))
        =~= (o0 + lop) + merged(rest_a(s0, kk, mk, bs, reg, m, ka, i + 1, f, blk, r),
        rest_b(s0, kk, mk, bs, reg, m, ka, ll, i + 1, f, blk, r), r));
}

/// The state after a block of the other run than the left-over piece: the
/// merge of the two until one runs out joins the result, and what is left
/// of the other is the new piece.
#[verifier::spinoff_prover]
proof fn lemma_state_other<T>(cur: Seq<T>, a0: Seq<T>, s0: Seq<T>, kk: int, mk: int, bs: int, reg: int, m: int, ka: int, ll: int, lo: int, rest: int, lol: int, i: int, f: isize, f2: isize, rem: int, target: Seq<T>, have_buffer: bool, r: spec_fn(T, T) -> Ordering)
    requires
        is_total_preorder(r),
        blocks_laid_out(s0, kk, mk, bs, reg, m, ka, ll, r),
        0 <= bs,
        0 <= ka,
        0 <= ll,
        0 <= rest,
        0 <= lol <= reg,
        bs + (m + ka) * reg + ll <= s0.len(),
        a0.len() == s0.len(),
        cur.len() == s0.len(),
        0 <= i < m,
        rest + lol == i * reg,
        0 <= f <= 1,
        frag_at(s0, kk, mk, i, r) == 1 - f,
        merge_state(a0, s0, kk, mk, bs, reg, m, ka, ll, lo, rest, rest + lol, i, f, target, r),
        ({
            let lop = a0.subrange(bs + rest, bs + rest + lol);
            let blk = block_at(s0, bs, reg, i);
            let end = bs + rest + lol + reg;
            let mm = frag_merged(lop, blk, f, r);
            &&& 0 <= rem <= lol + reg
            &&& rem == frag_rest_len(lop, blk, f, r)
            &&& (f2 == f && cur.subrange(end - rem, end) == lop.subrange(lop.len() - rem, len_of(lop)))
                || (f2 == 1 - f && cur.subrange(end - rem, end) == blk.subrange(blk.len() - rem, len_of(blk)))
            &&& rem > 0 ==> (f2 == f <==> frag_rest_of_a(lop, blk, f, r))
            &&& have_buffer ==> lo == bs - reg && 0 <= lo && cur.subrange(bs + rest - reg, end - reg - rem) + cur.subrange(end - rem, end) == mm
            &&& !have_buffer ==> lo == bs && cur.subrange(bs + rest, end) == mm
            &&& forall|k: int| 0 <= k < cur.len() && !(lo + rest <= k < end) ==> #[trigger] cur[k] == a0[k]
        }),
    ensures
        merge_state(cur, s0, kk, mk, bs, reg, m, ka, ll, lo, rest + lol + reg - rem, rest + lol + reg, i + 1, f2, target, r),
{
    reveal(merge_state);
    let pi0 = rest + lol;
    let lop = a0.subrange(bs + rest, bs + pi0);
    let o0 = a0.subrange(lo, lo + rest);
    let blk = block_at(s0, bs, reg, i);
    let end = bs + pi0 + reg;
    let mm = frag_merged(lop, blk, f, r);
    let lo2 = cur.subrange(end - rem, end);
    assert(i * reg + reg <= m * reg) by (nonlinear_arith) requires i < m, reg >= 1;
    assert(m * reg <= (m + ka) * reg) by (nonlinear_arith) requires ka >= 0, reg >= 1;
    lemma_other_run_step(s0, kk, mk, bs, reg, m, ka, ll, i, f, lop, f2, lo2, r);
    if have_buffer {
        assert(cur.subrange(bs + rest - reg, end - reg - rem) =~= mm.subrange(0, mm.len() - rem));
    } else {
        assert(cur.subrange(bs + rest, end - rem) =~= mm.subrange(0, mm.len() - rem));
    }
    assert(cur.subrange(lo, lo + (pi0 + reg - rem)) =~= o0 + mm.subrange(0, mm.len() - rem));
    assert(o0 + (mm.subrange(0, mm.len() - rem) + merged(rest_a(s0, kk, mk, bs, reg, m, ka, i + 1, f2, lo2, r),
        rest_b(s0, kk, mk, bs, reg, m, ka, ll, i + 1, f2, lo2, r), r))
        =~= (o0 + mm.subrange(0, mm.len() - rem)) + merged(rest_a(s0, kk, mk, bs, reg, m, ka, i + 1, f2, lo2, r),
        rest_b(s0, kk, mk, bs, reg, m, ka, ll, i + 1, f2, lo2, r), r));
}

/// Merges a run of `block_count` blocks of `reg_block_len` items at `base`,
/// each tagged by the key at the same position from `keys` on as coming
/// from the first run (a key less than the one at `midkey`) or the second,
/// followed by `a_block_count` blocks and a last piece of `last_len` items:
/// block after block, each with what is left over of the previous ones,
/// through the buffer of `reg_block_len` items before `base` when
/// `have_buffer`, and by rotations otherwise.
///
/// Where the blocks are laid out as the block sort leaves them (see
/// `blocks_laid_out`), with the keys before the range, the range from
/// `base` (or from the buffer) ends up as the stable merge of the first
/// run's blocks in order and the second run's blocks in order, the last
/// piece included.
#[verifier::spinoff_prover]
#[verifier::rlimit(100)]
fn grail_merge_buffers_left<T, F>(arr: &mut [T], keys: usize, midkey: usize, base: usize, block_count: usize, reg_block_len: usize, have_buffer: bool, a_block_count: usize, last_len: usize, cmp: &F, Ghost(r): Ghost<spec_fn(T, T) -> Ordering>)
    where
        F: Fn(&T, &T) -> Ordering,
    requires
        compares_by(*cmp, r),
        keys + block_count <= old(arr)@.len(),
        midkey < old(arr)@.len(),
        base + (block_count + a_block_count) * reg_block_len + last_len <= old(arr)@.len(),
        have_buffer ==> reg_block_len <= base,
    ensures
        final(arr)@.len() == old(arr)@.len(),
        final(arr)@.to_multiset() == old(arr)@.to_multiset(),
        forall|k: int| 0 <= k < old(arr)@.len()
            && !((if have_buffer { base - reg_block_len } else { ix(base) }) <= k
                < base + (block_count + a_block_count) * reg_block_len + last_len)
            ==> #[trigger] final(arr)@[k] == old(arr)@[k],
        ({
            let lo: int = if have_buffer { base - reg_block_len } else { ix(base) };
            let a_len = a_block_count * reg_block_len;
            block_count == 0 && (have_buffer ==> last_len <= reg_block_len)
                && sorted_between(old(arr)@, ix(base), base + a_len, r)
                && sorted_between(old(arr)@, base + a_len, base + a_len + last_len, r)
                ==> final(arr)@.subrange(lo, lo + a_len + last_len) == merged(
                    old(arr)@.subrange(ix(base), base + a_len),
                    old(arr)@.subrange(base + a_len, base + a_len + last_len),
                    r,
                )
        }),
        ({
            let lo: int = if have_buffer { base - reg_block_len } else { ix(base) };
            let reg = ix(reg_block_len);
            let m = ix(block_count);
            let ka = ix(a_block_count);
            let ll = ix(last_len);
            blocks_laid_out(old(arr)@, ix(keys), ix(midkey), ix(base), reg, m, ka, ll, r)
                && keys + block_count <= lo && midkey < lo && (have_buffer ==> last_len <= reg_block_len)
                ==> final(arr)@.subrange(lo, lo + (m + ka) * reg + ll) == merged(
                    run_blocks(old(arr)@, ix(keys), ix(midkey), ix(base), reg, m, 0, 0, r)
                        + old(arr)@.subrange(base + m * reg, base + (m + ka) * reg),
                    run_blocks(old(arr)@, ix(keys), ix(midkey), ix(base), reg, m, 0, 1, r)
                        + old(arr)@.subrange(base + (m + ka) * reg, base + (m + ka) * reg + ll),
                    r,
                )
        }),
{
    let ghost s0 = arr@;
    let ghost lo: int = if have_buffer { base - reg_block_len } else { ix(base) };
    let ghost total = (block_count + a_block_count) * reg_block_len + last_len;
    let ghost reg = ix(reg_block_len);
    let ghost m = ix(block_count);
    let ghost ka = ix(a_block_count);
    let ghost ll = ix(last_len);
    let ghost kk = ix(keys);
    let ghost mk = ix(midkey);
    let ghost bs = ix(base);
    let ghost good = blocks_laid_out(s0, kk, mk, bs, reg, m, ka, ll, r)
        && keys + block_count <= lo && midkey < lo && (have_buffer ==> last_len <= reg_block_len);
    let ghost ab = s0.subrange(base + m * reg, base + (m + ka) * reg);
    let ghost lp = s0.subrange(base + (m + ka) * reg, base + (m + ka) * reg + ll);
    let ghost target = merged(run_blocks(s0, kk, mk, bs, reg, m, 0, 0, r) + ab, run_blocks(s0, kk, mk, bs, reg, m, 0, 1, r) + lp, r);
    let n = arr.len();
    proof {
        assert(a_block_count * reg <= total && block_count * reg <= total
            && block_count * reg + a_block_count * reg + last_len == total) by (nonlinear_arith)
            requires total == (block_count + a_block_count) * reg + last_len, reg >= 0, last_len >= 0;
        assert((m + ka) * reg == m * reg + ka * reg) by (nonlinear_arith);
    }
    if block_count == 0 {
        let total_a_len = a_block_count * reg_block_len;
        if have_buffer {
            grail_merge_left(arr, base, total_a_len, last_len, reg_block_len, cmp, Ghost(r));
        } else {
            grail_merge_without_buffer(arr, base, total_a_len, last_len, cmp, Ghost(r));
        }
        proof {
            if good {
                assert(run_blocks(s0, kk, mk, bs, reg, m, 0, 0, r) =~= Seq::<T>::empty());
                assert(run_blocks(s0, kk, mk, bs, reg, m, 0, 1, r) =~= Seq::<T>::empty());
                assert(run_blocks(s0, kk, mk, bs, reg, m, 0, 0, r) + ab =~= ab);
                assert(run_blocks(s0, kk, mk, bs, reg, m, 0, 1, r) + lp =~= lp);
                assert(m * reg == 0);
                lemma_sorted_range(s0, bs, base + total_a_len, r);
                lemma_sorted_range(s0, base + total_a_len, base + total_a_len + last_len, r);
            }
        }
        return;
    }
    proof {
        if good {
            lemma_order_facts(r);
        }
    }
    let mut left_over_len = reg_block_len;
    let mut process_index = reg_block_len;
    let mut left_over_frag = key_fragment(arr, keys, midkey, cmp, Ghost(r));
    let mut key_index: usize = 1;
    proof {
        if good {
            lemma_run_blocks_step(s0, kk, mk, bs, reg, m, 0, r);
            let blk0 = block_at(s0, bs, reg, 0);
            assert(0 * reg == 0);
            assert(arr@.subrange(base + 0, base + process_index) =~= blk0);
            assert(rest_a(s0, kk, mk, bs, reg, m, ka, 1, left_over_frag, blk0, r)
                =~= run_blocks(s0, kk, mk, bs, reg, m, 0, 0, r) + ab);
            assert(rest_b(s0, kk, mk, bs, reg, m, ka, ll, 1, left_over_frag, blk0, r)
                =~= run_blocks(s0, kk, mk, bs, reg, m, 0, 1, r) + lp);
            assert(arr@.subrange(lo, lo + 0) + target =~= target);
            assert(merge_state(arr@, s0, kk, mk, bs, reg, m, ka, ll, lo, process_index - left_over_len, ix(process_index),
                ix(key_index), left_over_frag, target, r)) by {
                reveal(merge_state);
            }
        }
    }
    while key_index < block_count
        invariant
            compares_by(*cmp, r),
            n == s0.len(),
            arr@.len() == n,
            keys + block_count <= n,
            midkey < n,
            reg == reg_block_len,
            total == (block_count + a_block_count) * reg + last_len,
            base + total <= n,
            block_count * reg + a_block_count * reg + last_len == total,
            have_buffer ==> reg_block_len <= base,
            lo == if have_buffer { base - reg_block_len } else { ix(base) },
            1 <= key_index <= block_count,
            process_index == key_index * reg,
            left_over_len <= reg_block_len,
            0 <= left_over_frag <= 1,
            arr@.to_multiset() == s0.to_multiset(),
            forall|k: int| 0 <= k < n && !(lo <= k < base + total) ==> #[trigger] arr@[k] == s0[k],
            kk == keys, mk == midkey, bs == base, m == block_count, ka == a_block_count, ll == last_len,
            ab == s0.subrange(base + m * reg, base + (m + ka) * reg),
            lp == s0.subrange(base + (m + ka) * reg, base + (m + ka) * reg + ll),
            good ==> blocks_laid_out(s0, kk, mk, bs, reg, m, ka, ll, r) && keys + block_count <= lo && midkey < lo
                && (have_buffer ==> last_len <= reg_block_len),
            good ==> merge_state(arr@, s0, kk, mk, bs, reg, m, ka, ll, lo, process_index - left_over_len, ix(process_index),
                ix(key_index), left_over_frag, target, r),
        decreases block_count - key_index,
    {
        proof {
            assert(process_index + reg <= block_count * reg) by (nonlinear_arith)
                requires process_index == key_index * reg, key_index < block_count, reg >= 0;
            assert(reg <= process_index) by (nonlinear_arith)
                requires process_index == key_index * reg, key_index >= 1, reg >= 0;
        }
        let rest = process_index - left_over_len;
        let ghost a0 = arr@;
        let ghost lop = a0.subrange(base + rest, base + process_index);
        let ghost f = left_over_frag;
        let ghost i = ix(key_index);
        let ghost o0 = a0.subrange(lo, lo + rest);
        let ghost blk = block_at(s0, bs, reg, i);
        let ghost pi0 = ix(process_index);
        let next_frag = key_fragment(arr, keys + key_index, midkey, cmp, Ghost(r));
        proof {
            if good {
                assert({
                    &&& forall|k: int| base + process_index <= k < n ==> #[trigger] a0[k] == s0[k]
                    &&& sorted_seq(rest_a(s0, kk, mk, bs, reg, m, ka, i, f, lop, r), r)
                    &&& sorted_seq(rest_b(s0, kk, mk, bs, reg, m, ka, ll, i, f, lop, r), r)
                }) by {
                    reveal(merge_state);
                }
                assert(a0[keys + key_index] == s0[keys + key_index]);
                assert(a0[ix(midkey)] == s0[ix(midkey)]);
                assert(next_frag == frag_at(s0, kk, mk, i, r));
                assert(a0.subrange(base + process_index, base + process_index + reg) =~= blk);
            }
        }
        if next_frag == left_over_frag {
            if have_buffer {
                grail_multi_swap(arr, base + rest - reg_block_len, base + rest, left_over_len);
            }
            proof {
                if good {
                    lemma_state_same(arr@, a0, s0, kk, mk, bs, reg, m, ka, ll, lo, ix(rest), ix(left_over_len), i, f, target, have_buffer, r);
                }
            }
            left_over_len = reg_block_len;
        } else {
            let ghost lol0 = left_over_len;
            proof {
                if good {
                    assert(sorted_seq(lop, r) && sorted_seq(blk, r)) by {
                        lemma_run_blocks_step(s0, kk, mk, bs, reg, m, i, r);
                        if f == 0 {
                            assert(rest_a(s0, kk, mk, bs, reg, m, ka, i, f, lop, r) =~= lop + (run_blocks(s0, kk, mk, bs, reg, m, i, 0, r) + ab));
                            lemma_sorted_prefix(lop, run_blocks(s0, kk, mk, bs, reg, m, i, 0, r) + ab, r);
                            assert(rest_b(s0, kk, mk, bs, reg, m, ka, ll, i, f, lop, r) =~= blk + (run_blocks(s0, kk, mk, bs, reg, m, i + 1, 1, r) + lp));
                            lemma_sorted_prefix(blk, run_blocks(s0, kk, mk, bs, reg, m, i + 1, 1, r) + lp, r);
                        } else {
                            assert(rest_b(s0, kk, mk, bs, reg, m, ka, ll, i, f, lop, r) =~= lop + (run_blocks(s0, kk, mk, bs, reg, m, i, 1, r) + lp));
                            lemma_sorted_prefix(lop, run_blocks(s0, kk, mk, bs, reg, m, i, 1, r) + lp, r);
                            assert(rest_a(s0, kk, mk, bs, reg, m, ka, i, f, lop, r) =~= blk + (run_blocks(s0, kk, mk, bs, reg, m, i + 1, 0, r) + ab));
                            lemma_sorted_prefix(blk, run_blocks(s0, kk, mk, bs, reg, m, i + 1, 0, r) + ab, r);
                        }
                    }
                    assert(a0.subrange(base + rest, base + rest + lol0) =~= lop);
                    assert(a0.subrange(base + rest + lol0, base + rest + lol0 + reg) =~= blk);
                }
            }
            if have_buffer {
                grail_smart_merge_with_buffer(arr, base + rest, &mut left_over_len, &mut left_over_frag, reg_block_len, cmp, Ghost(r));
            } else {
                grail_smart_merge_without_buffer(arr, base + rest, &mut left_over_len, &mut left_over_frag, reg_block_len, cmp, Ghost(r));
            }
            proof {
                if good {
                    lemma_state_other(arr@, a0, s0, kk, mk, bs, reg, m, ka, ll, lo, ix(rest), ix(lol0), i, f, left_over_frag, ix(left_over_len), target, have_buffer, r);
                }
            }
        }
        process_index += reg_block_len;
        key_index += 1;
        proof {
            assert(process_index == key_index * reg) by (nonlinear_arith)
                requires process_index == (key_index - 1) * reg + reg;
        }
    }
    proof {
        assert(reg <= process_index) by (nonlinear_arith)
            requires process_index == key_index * reg, key_index >= 1, reg >= 0;
        assert(process_index == m * reg);
    }
    let mut rest = process_index - left_over_len;
    let ghost a0 = arr@;
    let ghost lop = a0.subrange(base + rest, base + process_index);
    let ghost o0 = a0.subrange(lo, lo + rest);
    let ghost f = left_over_frag;
    proof {
        if good {
            reveal(merge_state);
            assert(o0 + merged(rest_a(s0, kk, mk, bs, reg, m, ka, m, f, lop, r), rest_b(s0, kk, mk, bs, reg, m, ka, ll, m, f, lop, r), r) == target);
            assert(sorted_seq(rest_a(s0, kk, mk, bs, reg, m, ka, m, f, lop, r), r));
            assert(sorted_seq(rest_b(s0, kk, mk, bs, reg, m, ka, ll, m, f, lop, r), r));
            assert(forall|k: int| base + process_index <= k < n ==> #[trigger] a0[k] == s0[k]);
            lemma_last_piece(s0, kk, mk, bs, reg, m, ka, ll, f, lop, r);
            assert(a0.subrange(base + process_index, base + process_index + ka * reg) =~= ab);
            assert(a0.subrange(base + process_index + ka * reg, base + process_index + ka * reg + ll) =~= lp);
        }
    }
    if last_len != 0 {
        if left_over_frag != 0 {
            if have_buffer {
                grail_multi_swap(arr, base + rest - reg_block_len, base + rest, left_over_len);
            }
            proof {
                if good {
                    assert(arr@.subrange(lo, lo + process_index) =~= o0 + lop);
                    assert(arr@.subrange(base + process_index, base + process_index + ka * reg) =~= ab);
                    assert(arr@.subrange(base + process_index + ka * reg, base + process_index + ka * reg + ll) =~= lp);
                    lemma_sorted_range(arr@, base + process_index, base + process_index + ka * reg, r);
                    lemma_sorted_range(arr@, base + process_index + ka * reg, base + process_index + ka * reg + ll, r);
                }
            }
            rest = process_index;
            left_over_len = reg_block_len * a_block_count;
        } else {
            proof {
                if good {
                    assert(arr@.subrange(base + rest, base + process_index + ka * reg) =~= lop + ab);
                    lemma_sorted_range(arr@, base + rest, base + process_index + ka * reg, r);
                    lemma_sorted_range(arr@, base + process_index + ka * reg, base + process_index + ka * reg + ll, r);
                }
            }
            left_over_len += reg_block_len * a_block_count;
        }
        let ghost a1 = arr@;
        let ghost o1 = a1.subrange(lo, lo + rest);
        if have_buffer {
            grail_merge_left(arr, base + rest, left_over_len, last_len, reg_block_len, cmp, Ghost(r));
        } else {
            grail_merge_without_buffer(arr, base + rest, left_over_len, last_len, cmp, Ghost(r));
        }
        proof {
            if good {
                let mg = merged(a1.subrange(base + rest, base + rest + left_over_len),
                    a1.subrange(base + rest + left_over_len, base + rest + left_over_len + last_len), r);
                assert(arr@.subrange(lo + rest, lo + rest + left_over_len + last_len) == mg);
                assert(arr@.subrange(lo, lo + total) =~= o1 + mg);
                if f != 0 {
                    assert(o1 + mg =~= o0 + (lop + merged(ab, lp, r)));
                } else {
                    assert(a1.subrange(base + rest, base + rest + left_over_len) =~= lop + ab);
                }
            }
        }
    } else {
        if have_buffer {
            grail_multi_swap(arr, base + rest, base + rest - reg_block_len, left_over_len);
        }
        proof {
            if good {
                assert(ka == 0);
                assert(arr@.subrange(lo, lo + total) =~= o0 + lop);
            }
        }
    }
}

/// `2^(i + 1)` is at most `2^e` when `i < e`.
proof fn lemma_pow2_double_le(i: nat, e: nat)
    requires
        i < e,
    ensures
        2 * pow2(i) == pow2(i + 1),
        pow2(i + 1) <= pow2(e),
{
    lemma_pow2_unfold(i + 1);
    if i + 1 < e {
        lemma_pow2_strictly_increases(i + 1, e);
    }
}

/// Where run `k` of width `w` among `n` items ends: `k * w + w`, or `n` for
/// the last run.
pub open spec fn run_end(w: int, k: int, n: int) -> int {
    if k * w + w < n { k * w + w } else { n }
}

/// Run `k` of width `w` among the `n` items from position `at` of `s` is the
/// stable sort of run `k` of `d`: it is sorted, and a stable reordering of it.
pub open spec fn run_at<T>(s: Seq<T>, at: int, w: int, k: int, n: int, d: Seq<T>, r: spec_fn(T, T) -> Ordering) -> bool {
    &&& sorted_between(s, at + k * w, at + run_end(w, k, n), r)
    &&& stable_perm(s.subrange(at + k * w, at + run_end(w, k, n)), d.subrange(k * w, run_end(w, k, n)), r)
}

/// Every run of width `w` among the `n` items from position `at` of `s` is
/// the stable sort of the same run of `d`.
pub open spec fn runs_from<T>(s: Seq<T>, at: int, w: int, n: int, d: Seq<T>, r: spec_fn(T, T) -> Ordering) -> bool {
    forall|k: int| 0 <= k && k * w < n ==> #[trigger] run_at(s, at, w, k, n, d, r)
}

/// A run that `t` holds where `s` held it stays what it was.
proof fn lemma_run_same<T>(s: Seq<T>, t: Seq<T>, at: int, w: int, k: int, n: int, d: Seq<T>, r: spec_fn(T, T) -> Ordering)
    requires
        0 <= at + k * w <= at + run_end(w, k, n) <= s.len(),
        s.len() == t.len(),
        forall|i: int| at + k * w <= i < at + run_end(w, k, n) ==> #[trigger] t[i] == s[i],
        run_at(s, at, w, k, n, d, r),
    ensures
        run_at(t, at, w, k, n, d, r),
{
    lemma_sorted_same(s, t, at + k * w, at + run_end(w, k, n), r);
    assert(t.subrange(at + k * w, at + run_end(w, k, n)) =~= s.subrange(at + k * w, at + run_end(w, k, n)));
}

/// Two stable reorderings side by side make a stable reordering.
proof fn lemma_stable_concat<T>(a: Seq<T>, a2: Seq<T>, b: Seq<T>, b2: Seq<T>, r: spec_fn(T, T) -> Ordering)
    requires
        stable_perm(a, a2, r),
        stable_perm(b, b2, r),
    ensures
        stable_perm(a + b, a2 + b2, r),
{
    lemma_class_concat(a, b, r);
    lemma_class_concat(a2, b2, r);
    assert forall|x: T| #[trigger] class_in(a + b, x, r) == class_in(a2 + b2, x, r) by {
        assert(class_in(a, x, r) == class_in(a2, x, r));
        assert(class_in(b, x, r) == class_in(b2, x, r));
    }
}

/// The merge of two sorted pieces is sorted.
#[verifier::spinoff_prover]
#[verifier::rlimit(30)]
proof fn lemma_merged_sorted<T>(s: Seq<T>, lo: int, mid: int, hi: int, t: Seq<T>, at: int, d: Seq<T>, dlo: int, r: spec_fn(T, T) -> Ordering)
    requires
        is_total_preorder(r),
        0 <= lo <= mid <= hi <= s.len(),
        sorted_between(s, lo, mid, r),
        sorted_between(s, mid, hi, r),
        0 <= at,
        at + (hi - lo) <= t.len(),
        t.subrange(at, at + (hi - lo)) == merged(s.subrange(lo, mid), s.subrange(mid, hi), r),
        0 <= dlo,
        dlo + (hi - lo) <= d.len(),
        stable_perm(s.subrange(lo, mid), d.subrange(dlo, dlo + (mid - lo)), r),
        stable_perm(s.subrange(mid, hi), d.subrange(dlo + (mid - lo), dlo + (hi - lo)), r),
    ensures
        sorted_between(t, at, at + (hi - lo), r),
        stable_perm(t.subrange(at, at + (hi - lo)), d.subrange(dlo, dlo + (hi - lo)), r),
{
    let a = s.subrange(lo, mid);
    let b = s.subrange(mid, hi);
    assert forall|i: int, j: int| 0 <= i <= j < a.len() implies le(r, #[trigger] a[i], #[trigger] a[j]) by {
        assert(a[i] == s[lo + i] && a[j] == s[lo + j]);
    }
    assert forall|i: int, j: int| 0 <= i <= j < b.len() implies le(r, #[trigger] b[i], #[trigger] b[j]) by {
        assert(b[i] == s[mid + i] && b[j] == s[mid + j]);
    }
    lemma_merge_sorted_stable(a, b, r);
    let m = t.subrange(at, at + (hi - lo));
    assert forall|i: int, j: int| at <= i <= j < at + (hi - lo) implies le(r, #[trigger] t[i], #[trigger] t[j]) by {
        assert(t[i] == m[i - at] && t[j] == m[j - at]);
    }
    lemma_stable_concat(a, d.subrange(dlo, dlo + (mid - lo)), b, d.subrange(dlo + (mid - lo), dlo + (hi - lo)), r);
    assert(d.subrange(dlo, dlo + (mid - lo)) + d.subrange(dlo + (mid - lo), dlo + (hi - lo)) =~= d.subrange(dlo, dlo + (hi - lo)));
    lemma_stable_trans(m, a + b, d.subrange(dlo, dlo + (hi - lo)), r);
}

/// The runs of width `w` up to `k * w` together are a stable reordering of
/// the same prefix of `d`.
proof fn lemma_runs_prefix<T>(s: Seq<T>, at: int, w: int, n: int, d: Seq<T>, k: int, r: spec_fn(T, T) -> Ordering)
    requires
        w >= 1,
        0 <= at,
        at + n <= s.len(),
        d.len() == n,
        0 <= k,
        k * w <= n,
        runs_from(s, at, w, n, d, r),
    ensures
        stable_perm(s.subrange(at, at + k * w), d.subrange(0, k * w), r),
    decreases k,
{
    if k == 0 {
        assert(k * w == 0) by (nonlinear_arith) requires k == 0;
        assert(s.subrange(at, at + k * w) =~= d.subrange(0, k * w));
    } else {
        let j = k - 1;
        assert(j * w + w == k * w) by (nonlinear_arith) requires j == k - 1;
        assert(j * w >= 0) by (nonlinear_arith) requires j >= 0, w >= 1;
        lemma_runs_prefix(s, at, w, n, d, j, r);
        assert(run_at(s, at, w, j, n, d, r));
        assert(run_end(w, j, n) == k * w);
        lemma_stable_concat(s.subrange(at, at + j * w), d.subrange(0, j * w),
            s.subrange(at + j * w, at + k * w), d.subrange(j * w, k * w), r);
        assert(s.subrange(at, at + j * w) + s.subrange(at + j * w, at + k * w) =~= s.subrange(at, at + k * w));
        assert(d.subrange(0, j * w) + d.subrange(j * w, k * w) =~= d.subrange(0, k * w));
    }
}

/// All the runs together are a stable reordering of `d`.
proof fn lemma_runs_whole<T>(s: Seq<T>, at: int, w: int, n: int, d: Seq<T>, r: spec_fn(T, T) -> Ordering)
    requires
        w >= 1,
        0 <= at,
        0 <= n,
        at + n <= s.len(),
        d.len() == n,
        runs_from(s, at, w, n, d, r),
    ensures
        stable_perm(s.subrange(at, at + n), d, r),
{
    let kq = n / w;
    lemma_fundamental_div_mod(n, w);
    vstd::arithmetic::div_mod::lemma_mod_bound(n, w);
    assert(kq * w <= n < kq * w + w && kq >= 0) by (nonlinear_arith)
        requires n == w * (n / w) + n % w, kq == n / w, 0 <= n % w < w, n >= 0, w >= 1;
    lemma_runs_prefix(s, at, w, n, d, kq, r);
    if kq * w == n {
        assert(d.subrange(0, n) =~= d);
    } else {
        assert(run_at(s, at, w, kq, n, d, r));
        assert(run_end(w, kq, n) == n);
        lemma_stable_concat(s.subrange(at, at + kq * w), d.subrange(0, kq * w),
            s.subrange(at + kq * w, at + n), d.subrange(kq * w, n), r);
        assert(s.subrange(at, at + kq * w) + s.subrange(at + kq * w, at + n) =~= s.subrange(at, at + n));
        assert(d.subrange(0, kq * w) + d.subrange(kq * w, n) =~= d);
    }
}

/// Where two sequences hold the same items, agree outside `lo..hi`, and hold
/// the same items in `mid..hi`, they hold the same items in `lo..mid`.
proof fn lemma_middle_multiset<T>(f: Seq<T>, s: Seq<T>, lo: int, mid: int, hi: int)
    requires
        f.len() == s.len(),
        0 <= lo <= mid <= hi <= s.len(),
        f.to_multiset() == s.to_multiset(),
        forall|k: int| 0 <= k < s.len() && !(lo <= k < hi) ==> #[trigger] f[k] == s[k],
        f.subrange(mid, hi).to_multiset() == s.subrange(mid, hi).to_multiset(),
    ensures
        f.subrange(lo, mid).to_multiset() == s.subrange(lo, mid).to_multiset(),
{
    broadcast use vstd::multiset::group_multiset_axioms;
    let n = s.len() as int;
    assert(f.subrange(0, lo) =~= s.subrange(0, lo));
    assert(f.subrange(hi, n) =~= s.subrange(hi, n));
    assert(f =~= f.subrange(0, lo) + f.subrange(lo, mid) + f.subrange(mid, hi) + f.subrange(hi, n));
    assert(s =~= s.subrange(0, lo) + s.subrange(lo, mid) + s.subrange(mid, hi) + s.subrange(hi, n));
    vstd::seq_lib::lemma_multiset_commutative(f.subrange(0, lo), f.subrange(lo, mid));
    vstd::seq_lib::lemma_multiset_commutative(f.subrange(0, lo) + f.subrange(lo, mid), f.subrange(mid, hi));
    vstd::seq_lib::lemma_multiset_commutative(f.subrange(0, lo) + f.subrange(lo, mid) + f.subrange(mid, hi), f.subrange(hi, n));
    vstd::seq_lib::lemma_multiset_commutative(s.subrange(0, lo), s.subrange(lo, mid));
    vstd::seq_lib::lemma_multiset_commutative(s.subrange(0, lo) + s.subrange(lo, mid), s.subrange(mid, hi));
    vstd::seq_lib::lemma_multiset_commutative(s.subrange(0, lo) + s.subrange(lo, mid) + s.subrange(mid, hi), s.subrange(hi, n));
    let fa = f.subrange(0, lo);
    let fb = f.subrange(lo, mid);
    let fc = f.subrange(mid, hi);
    let fd = f.subrange(hi, n);
    let sa = s.subrange(0, lo);
    let sb = s.subrange(lo, mid);
    let sc = s.subrange(mid, hi);
    let sd = s.subrange(hi, n);
    assert(f.to_multiset() == fa.to_multiset().add(fb.to_multiset()).add(fc.to_multiset()).add(fd.to_multiset()));
    assert(s.to_multiset() == sa.to_multiset().add(sb.to_multiset()).add(sc.to_multiset()).add(sd.to_multiset()));
    assert forall|x: T| fb.to_multiset().count(x) == sb.to_multiset().count(x) by {
        assert(f.to_multiset().count(x) == s.to_multiset().count(x));
        assert(f.to_multiset().count(x) == fa.to_multiset().count(x) + fb.to_multiset().count(x)
            + fc.to_multiset().count(x) + fd.to_multiset().count(x));
        assert(s.to_multiset().count(x) == sa.to_multiset().count(x) + sb.to_multiset().count(x)
            + sc.to_multiset().count(x) + sd.to_multiset().count(x));
        assert(fa.to_multiset().count(x) == sa.to_multiset().count(x));
        assert(fc.to_multiset().count(x) == sc.to_multiset().count(x));
        assert(fd.to_multiset().count(x) == sd.to_multiset().count(x));
    }
    assert(f.subrange(lo, mid).to_multiset() =~= s.subrange(lo, mid).to_multiset());
}

/// Runs `2 * k` and `2 * k + 1` of width `w` lie where run `k` of width
/// `2 * w` lies.
proof fn lemma_run_halves(k: int, w: int, n: int)
    requires
        k >= 0,
        w >= 1,
        k * (2 * w) < n,
    ensures
        (2 * k) * w == k * (2 * w),
        (2 * k + 1) * w == k * (2 * w) + w,
        (2 * k) * w < n,
{
    assert((2 * k) * w == k * (2 * w)) by (nonlinear_arith);
    assert((2 * k + 1) * w == k * (2 * w) + w) by (nonlinear_arith);
}

/// Sorts the `len` items at `base` into runs of `2 * build_len` items
/// (`build_len` a power of two), using the `build_len` items before `base`
/// as a buffer that the merges move through: first in pairs, then by merges
/// of doubling width through the buffer, and at the end the buffer is
/// carried back in front by merges from the back.
fn grail_build_blocks<T, F>(arr: &mut [T], base: usize, len: usize, build_len: usize, Ghost(e): Ghost<nat>, cmp: &F, Ghost(r): Ghost<spec_fn(T, T) -> Ordering>)
    where
        F: Fn(&T, &T) -> Ordering,
    requires
        compares_by(*cmp, r),
        build_len == pow2(e),
        e >= 1,
        build_len <= base,
        base + len <= old(arr)@.len(),
        2 * build_len <= usize::MAX,
    ensures
        final(arr)@.len() == old(arr)@.len(),
        final(arr)@.to_multiset() == old(arr)@.to_multiset(),
        forall|k: int| 0 <= k < old(arr)@.len() && !(base - build_len <= k < base + len)
            ==> #[trigger] final(arr)@[k] == old(arr)@[k],
        runs_from(final(arr)@, ix(base), 2 * build_len, ix(len), old(arr)@.subrange(ix(base), base + len), r),
        stable_perm(final(arr)@.subrange(ix(base), base + len), old(arr)@.subrange(ix(base), base + len), r),
        final(arr)@.subrange(base - build_len, ix(base)).to_multiset()
            == old(arr)@.subrange(base - build_len, ix(base)).to_multiset(),
{
    let ghost s0 = arr@;
    let ghost d0 = s0.subrange(ix(base), base + len);
    let ghost lo = base - build_len;
    let ghost hi = base + len;
    let n = arr.len();
    proof {
        lemma_pow2_double_le(0, e);
        vstd::arithmetic::power::lemma_pow0(2);
        lemma_order_facts(r);
    }
    let mut dist: usize = 1;
    let ghost mut pk: int = 0;
    while dist < len
        invariant
            compares_by(*cmp, r),
            is_total_preorder(r),
            n == s0.len(),
            arr@.len() == n,
            lo == base - build_len,
            hi == base + len,
            hi <= n,
            2 <= build_len <= base,
            1 <= dist <= len + 1,
            dist == 2 * pk + 1,
            arr@.to_multiset() == s0.to_multiset(),
            forall|k: int| 0 <= k < n && !(lo <= k < hi) ==> #[trigger] arr@[k] == s0[k],
            forall|i: int| base + dist - 1 <= i < base + len ==> #[trigger] arr@[i] == s0[i],
            forall|k: int| 0 <= k < pk ==> #[trigger] run_at(arr@, base - 2, 2, k, ix(len), d0, r),
            d0 == s0.subrange(ix(base), base + len),
        decreases len + 1 - dist,
    {
        let ghost s = arr@;
        let extra_dist: usize = match cmp(&arr[base + dist - 1], &arr[base + dist]) {
            Ordering::Greater => 1,
            _ => 0,
        };
        proof {
            lemma_swapped_multiset(arr@, base + dist - 3, base + dist - 1 + extra_dist);
        }
        swap_items(arr, base + dist - 3, base + dist - 1 + extra_dist);
        proof {
            lemma_swapped_multiset(arr@, base + dist - 2, base + dist - extra_dist);
        }
        swap_items(arr, base + dist - 2, base + dist - extra_dist);
        proof {
            let s1 = arr@;
            assert(le(r, s1[base + dist - 3], s1[base + dist - 2]));
            assert(pk * 2 + 2 <= len);
            assert(run_end(2, pk, ix(len)) == pk * 2 + 2);
            assert(d0[dist - 1] == s[base + dist - 1] && d0[ix(dist)] == s[base + dist]);
            if extra_dist == 0 {
                assert(s1.subrange(base - 2 + pk * 2, base - 2 + pk * 2 + 2) =~= d0.subrange(pk * 2, pk * 2 + 2));
            } else {
                lemma_swap_adjacent_stable(d0, pk * 2, pk * 2 + 2, pk * 2 + 1, r);
                assert(s1.subrange(base - 2 + pk * 2, base - 2 + pk * 2 + 2)
                    =~= d0.update(pk * 2, d0[pk * 2 + 1]).update(pk * 2 + 1, d0[pk * 2]).subrange(pk * 2, pk * 2 + 2));
            }
            assert(run_at(s1, base - 2, 2, pk, ix(len), d0, r));
            assert forall|k: int| 0 <= k < pk + 1 implies #[trigger] run_at(s1, base - 2, 2, k, ix(len), d0, r) by {
                if k < pk {
                    assert(run_at(s, base - 2, 2, k, ix(len), d0, r));
                    assert(k * 2 + 2 <= pk * 2);
                    lemma_run_same(s, s1, base - 2, 2, k, ix(len), d0, r);
                }
            }
        }
        dist += 2;
        proof {
            pk = pk + 1;
        }
    }
    if len % 2 != 0 {
        proof {
            lemma_swapped_multiset(arr@, base + len - 1, base + len - 3);
        }
        let ghost s = arr@;
        swap_items(arr, base + len - 1, base + len - 3);
        proof {
            assert forall|k: int| 0 <= k < pk implies #[trigger] run_at(arr@, base - 2, 2, k, ix(len), d0, r) by {
                assert(run_at(s, base - 2, 2, k, ix(len), d0, r));
                assert(k * 2 + 2 <= pk * 2);
                lemma_run_same(s, arr@, base - 2, 2, k, ix(len), d0, r);
            }
            assert(pk * 2 + 1 == len);
            assert(arr@[base + len - 3] == s[base + len - 1]);
            assert(s[base + len - 1] == d0[len - 1]);
            assert(run_end(2, pk, ix(len)) == len);
            assert(arr@.subrange(base - 2 + pk * 2, base - 2 + ix(len)) =~= d0.subrange(pk * 2, ix(len)));
            assert(run_at(arr@, base - 2, 2, pk, ix(len), d0, r));
        }
    }
    proof {
        assert forall|k: int| 0 <= k && k * 2 < len implies #[trigger] run_at(arr@, base - 2, 2, k, ix(len), d0, r) by {
            if k >= pk {
                assert(k == pk);
                assert(pk * 2 + 1 == len);
            }
        }
    }
    let mut start = base - 2;
    let mut part: usize = 2;
    let ghost mut level: nat = 1;
    while part < build_len
        invariant
            compares_by(*cmp, r),
            is_total_preorder(r),
            n == s0.len(),
            arr@.len() == n,
            lo == base - build_len,
            hi == base + len,
            hi <= n,
            build_len == pow2(e),
            build_len <= base,
            part == pow2(level),
            1 <= level <= e,
            start + part == base,
            arr@.to_multiset() == s0.to_multiset(),
            forall|k: int| 0 <= k < n && !(lo <= k < hi) ==> #[trigger] arr@[k] == s0[k],
            runs_from(arr@, ix(start), ix(part), ix(len), d0, r),
            d0.len() == len,
        decreases build_len - part,
    {
        proof {
            lemma_pow2_double_le(level, e);
            lemma_pow2_strictly_increases(0, level);
            vstd::arithmetic::power::lemma_pow0(2);
        }
        let ghost d = arr@;
        let mut left: usize = 0;
        let ghost mut kk: int = 0;
        while part <= (len - left) / 2
            invariant
                compares_by(*cmp, r),
                is_total_preorder(r),
                n == s0.len(),
                arr@.len() == n,
                d.len() == n,
                lo == base - build_len,
                hi == base + len,
                hi <= n,
                2 * part <= build_len <= base,
                part >= 2,
                start + part == base,
                left <= len,
                kk >= 0,
                left == kk * (2 * part),
                arr@.to_multiset() == s0.to_multiset(),
                forall|k: int| 0 <= k < n && !(lo <= k < hi) ==> #[trigger] arr@[k] == s0[k],
                runs_from(d, ix(start), ix(part), ix(len), d0, r),
                d0.len() == len,
                forall|i: int| start + left <= i < start + len ==> #[trigger] arr@[i] == d[i],
                forall|k: int| 0 <= k < kk ==> #[trigger] run_at(arr@, start - part, 2 * part, k, ix(len), d0, r),
            decreases len - left,
        {
            let ghost s = arr@;
            proof {
                lemma_run_halves(kk, ix(part), ix(len));
                assert(run_at(d, ix(start), ix(part), 2 * kk, ix(len), d0, r));
                assert(run_at(d, ix(start), ix(part), 2 * kk + 1, ix(len), d0, r));
                assert(run_end(ix(part), 2 * kk, ix(len)) == left + part);
                assert(run_end(ix(part), 2 * kk + 1, ix(len)) == left + 2 * part);
                lemma_run_same(d, s, ix(start), ix(part), 2 * kk, ix(len), d0, r);
                lemma_run_same(d, s, ix(start), ix(part), 2 * kk + 1, ix(len), d0, r);
            }
            grail_merge_left(arr, start + left, part, part, part, cmp, Ghost(r));
            proof {
                let s1 = arr@;
                lemma_merged_sorted(s, start + left, start + left + part, start + left + 2 * part, s1, start + left - part, d0, ix(left), r);
                assert(run_end(2 * part, kk, ix(len)) == left + 2 * part);
                assert(run_at(s1, start - part, 2 * part, kk, ix(len), d0, r));
                assert forall|k: int| 0 <= k < kk + 1 implies #[trigger] run_at(s1, start - part, 2 * part, k, ix(len), d0, r) by {
                    if k < kk {
                        assert(run_at(s, start - part, 2 * part, k, ix(len), d0, r));
                        assert((k + 1) * (2 * part) <= kk * (2 * part)) by (nonlinear_arith)
                            requires k + 1 <= kk, part >= 0;
                        assert(k * (2 * part) + 2 * part == (k + 1) * (2 * part)) by (nonlinear_arith);
                        assert(k * (2 * part) >= 0) by (nonlinear_arith) requires k >= 0, part >= 0;
                        lemma_run_same(s, s1, start - part, 2 * part, k, ix(len), d0, r);
                    }
                }
                assert((kk + 1) * (2 * part) == kk * (2 * part) + 2 * part) by (nonlinear_arith);
            }
            left += 2 * part;
            proof {
                kk = kk + 1;
            }
        }
        let rest = len - left;
        let ghost s = arr@;
        if rest > part {
            proof {
                lemma_run_halves(kk, ix(part), ix(len));
                assert(run_at(d, ix(start), ix(part), 2 * kk, ix(len), d0, r));
                assert(run_at(d, ix(start), ix(part), 2 * kk + 1, ix(len), d0, r));
                assert(run_end(ix(part), 2 * kk, ix(len)) == left + part);
                assert(run_end(ix(part), 2 * kk + 1, ix(len)) == len);
                lemma_run_same(d, s, ix(start), ix(part), 2 * kk, ix(len), d0, r);
                lemma_run_same(d, s, ix(start), ix(part), 2 * kk + 1, ix(len), d0, r);
            }
            grail_merge_left(arr, start + left, part, rest - part, part, cmp, Ghost(r));
            proof {
                lemma_merged_sorted(s, start + left, start + left + part, start + len, arr@, start + left - part, d0, ix(left), r);
                assert(run_end(2 * part, kk, ix(len)) == len);
                assert(run_at(arr@, start - part, 2 * part, kk, ix(len), d0, r));
            }
        } else {
            grail_rotate(arr, start + left - part, part, rest);
            proof {
                if rest > 0 {
                    assert((2 * kk) * part == kk * (2 * part)) by (nonlinear_arith);
                    assert(run_at(d, ix(start), ix(part), 2 * kk, ix(len), d0, r));
                    let s1 = arr@;
                    assert(run_end(ix(part), 2 * kk, ix(len)) == len);
                    assert forall|i: int, j: int| start + left - part <= i <= j < start + left - part + rest
                        implies le(r, #[trigger] s1[i], #[trigger] s1[j]) by {
                        assert(s1[i] == s[i + part] && s1[j] == s[j + part]);
                        assert(s[i + part] == d[i + part] && s[j + part] == d[j + part]);
                    }
                    assert(s1.subrange(start + left - part, start + len - part) =~= d.subrange(start + left, start + len)) by {
                        assert forall|i: int| start + left - part <= i < start + len - part implies #[trigger] s1[i] == d[i + part] by {
                            assert(s1[i] == s[i + part]);
                        }
                    }
                    assert(run_end(2 * part, kk, ix(len)) == len);
                    assert(run_at(s1, start - part, 2 * part, kk, ix(len), d0, r));
                }
            }
        }
        proof {
            let s1 = arr@;
            assert forall|k: int| 0 <= k && k * (2 * part) < len implies #[trigger] run_at(s1, start - part, 2 * part, k, ix(len), d0, r) by {
                if k < kk {
                    assert(run_at(s, start - part, 2 * part, k, ix(len), d0, r));
                    assert((k + 1) * (2 * part) <= kk * (2 * part)) by (nonlinear_arith)
                        requires k + 1 <= kk, part >= 0;
                    assert(k * (2 * part) + 2 * part == (k + 1) * (2 * part)) by (nonlinear_arith);
                    assert(k * (2 * part) >= 0) by (nonlinear_arith) requires k >= 0, part >= 0;
                    lemma_run_same(s, s1, start - part, 2 * part, k, ix(len), d0, r);
                } else if k > kk {
                    assert(k * (2 * part) >= (kk + 1) * (2 * part)) by (nonlinear_arith)
                        requires k >= kk + 1, part >= 0;
                    assert((kk + 1) * (2 * part) == kk * (2 * part) + 2 * part) by (nonlinear_arith);
                } else {
                    assert(left + 2 * part > len);
                }
            }
        }
        start -= part;
        part *= 2;
        proof {
            level = level + 1;
        }
    }
    proof {
        if level < e {
            lemma_pow2_strictly_increases(level, e);
        }
        assert(part == build_len);
    }
    proof {
        lemma_fundamental_div_mod(ix(len), 2 * build_len);
    }
    let ghost a = arr@;
    let rest_to_build = len % (2 * build_len);
    let mut left_over_pos = len - rest_to_build;
    let ghost mut q: int = ix(len) / (2 * build_len);
    proof {
        let g = 2 * build_len;
        assert(left_over_pos == q * g && q >= 0) by (nonlinear_arith)
            requires ix(len) == g * (ix(len) / g) + ix(len) % g, q == ix(len) / g,
                rest_to_build == ix(len) % g, left_over_pos == ix(len) - rest_to_build, g > 0, len >= 0;
        lemma_run_halves(q, ix(build_len), ix(len) + 1);
    }
    if rest_to_build <= build_len {
        grail_rotate(arr, start + left_over_pos, rest_to_build, build_len);
        proof {
            if rest_to_build > 0 {
                assert(run_at(a, ix(start), ix(build_len), 2 * q, ix(len), d0, r));
                assert(run_end(ix(build_len), 2 * q, ix(len)) == len);
                let s1 = arr@;
                assert forall|i: int, j: int| base + left_over_pos <= i <= j < base + len
                    implies le(r, #[trigger] s1[i], #[trigger] s1[j]) by {
                    assert(s1[i] == a[i - build_len] && s1[j] == a[j - build_len]);
                }
                assert(s1.subrange(base + left_over_pos, base + len) =~= a.subrange(start + left_over_pos, start + len)) by {
                    assert forall|i: int| base + left_over_pos <= i < base + len implies #[trigger] s1[i] == a[i - build_len] by {}
                }
                assert(run_end(2 * build_len, q, ix(len)) == len);
                assert(run_at(s1, ix(base), 2 * build_len, q, ix(len), d0, r));
            }
        }
    } else {
        proof {
            assert(run_at(a, ix(start), ix(build_len), 2 * q, ix(len), d0, r));
            assert(run_at(a, ix(start), ix(build_len), 2 * q + 1, ix(len), d0, r));
            assert(run_end(ix(build_len), 2 * q, ix(len)) == left_over_pos + build_len);
            assert(run_end(ix(build_len), 2 * q + 1, ix(len)) == len);
        }
        grail_merge_right(arr, start + left_over_pos, build_len, rest_to_build - build_len, build_len, cmp, Ghost(r));
        proof {
            lemma_merged_sorted(a, start + left_over_pos, start + left_over_pos + build_len, start + len, arr@, base + left_over_pos, d0, ix(left_over_pos), r);
            assert(run_end(2 * build_len, q, ix(len)) == len);
            assert(run_at(arr@, ix(base), 2 * build_len, q, ix(len), d0, r));
        }
    }
    proof {
        let s1 = arr@;
        assert forall|i: int| start <= i < start + left_over_pos implies #[trigger] s1[i] == a[i] by {}
        assert forall|k: int| q <= k && k * (2 * build_len) < len implies #[trigger] run_at(s1, ix(base), 2 * build_len, k, ix(len), d0, r) by {
            if k > q {
                assert(k * (2 * build_len) >= (q + 1) * (2 * build_len)) by (nonlinear_arith)
                    requires k >= q + 1, build_len >= 0;
                assert((q + 1) * (2 * build_len) == q * (2 * build_len) + 2 * build_len) by (nonlinear_arith);
            }
        }
    }
    while left_over_pos > 0
        invariant
            compares_by(*cmp, r),
            is_total_preorder(r),
            n == s0.len(),
            arr@.len() == n,
            a.len() == n,
            lo == base - build_len,
            hi == base + len,
            hi <= n,
            start + build_len == base,
            2 <= build_len,
            2 * build_len <= usize::MAX,
            left_over_pos <= len,
            q >= 0,
            left_over_pos == q * (2 * build_len),
            arr@.to_multiset() == s0.to_multiset(),
            forall|k: int| 0 <= k < n && !(lo <= k < hi) ==> #[trigger] arr@[k] == s0[k],
            runs_from(a, ix(start), ix(build_len), ix(len), d0, r),
            d0.len() == len,
            forall|i: int| start <= i < start + left_over_pos ==> #[trigger] arr@[i] == a[i],
            forall|k: int| q <= k && k * (2 * build_len) < len ==> #[trigger] run_at(arr@, ix(base), 2 * build_len, k, ix(len), d0, r),
        decreases left_over_pos,
    {
        proof {
            assert(q >= 1 && left_over_pos >= 2 * build_len) by (nonlinear_arith)
                requires left_over_pos == q * (2 * build_len), left_over_pos > 0, build_len >= 2, q >= 0;
            assert(left_over_pos - 2 * build_len == (q - 1) * (2 * build_len)) by (nonlinear_arith)
                requires left_over_pos == q * (2 * build_len);
        }
        left_over_pos -= 2 * build_len;
        proof {
            q = q - 1;
        }
        let ghost s = arr@;
        proof {
            lemma_run_halves(q, ix(build_len), ix(len));
            assert(run_at(a, ix(start), ix(build_len), 2 * q, ix(len), d0, r));
            assert(run_at(a, ix(start), ix(build_len), 2 * q + 1, ix(len), d0, r));
            assert(run_end(ix(build_len), 2 * q, ix(len)) == left_over_pos + build_len);
            assert(run_end(ix(build_len), 2 * q + 1, ix(len)) == left_over_pos + 2 * build_len);
            lemma_run_same(a, s, ix(start), ix(build_len), 2 * q, ix(len), d0, r);
            lemma_run_same(a, s, ix(start), ix(build_len), 2 * q + 1, ix(len), d0, r);
        }
        grail_merge_right(arr, start + left_over_pos, build_len, build_len, build_len, cmp, Ghost(r));
        proof {
            let s1 = arr@;
            lemma_merged_sorted(s, start + left_over_pos, start + left_over_pos + build_len, start + left_over_pos + 2 * build_len, s1, base + left_over_pos, d0, ix(left_over_pos), r);
            assert(run_end(2 * build_len, q, ix(len)) == left_over_pos + 2 * build_len);
            assert(run_at(s1, ix(base), 2 * build_len, q, ix(len), d0, r));
            assert forall|k: int| q <= k && k * (2 * build_len) < len implies #[trigger] run_at(s1, ix(base), 2 * build_len, k, ix(len), d0, r) by {
                if k > q {
                    assert(run_at(s, ix(base), 2 * build_len, k, ix(len), d0, r));
                    assert(k * (2 * build_len) >= (q + 1) * (2 * build_len)) by (nonlinear_arith)
                        requires k >= q + 1, build_len >= 0;
                    assert((q + 1) * (2 * build_len) == q * (2 * build_len) + 2 * build_len) by (nonlinear_arith);
                    lemma_run_same(s, s1, ix(base), 2 * build_len, k, ix(len), d0, r);
                }
            }
            assert forall|i: int| start <= i < start + left_over_pos implies #[trigger] s1[i] == a[i] by {}
        }
    }
    proof {
        assert(q == 0) by (nonlinear_arith)
            requires left_over_pos == q * (2 * build_len), left_over_pos == 0, build_len >= 2, q >= 0;
        lemma_runs_whole(arr@, ix(base), 2 * build_len, ix(len), d0, r);
        lemma_stable_perm_multiset(arr@.subrange(ix(base), base + len), d0, r);
        lemma_middle_multiset(arr@, s0, lo, ix(base), hi);
    }
}

/// Block `x` of a group of `block_count` blocks of `reg` items (`group`
/// items cut into whole blocks) ends inside the group.
proof fn lemma_block_in_group(x: int, block_count: int, reg: int, group: int)
    requires
        0 <= x < block_count,
        reg >= 1,
        group >= 0,
        block_count == group / reg,
    ensures
        x * reg + reg <= block_count * reg <= group,
        x * reg >= 0,
{
    vstd::arithmetic::div_mod::lemma_fundamental_div_mod(group, reg);
    assert(x * reg + reg <= block_count * reg) by (nonlinear_arith)
        requires x < block_count, reg >= 1;
    assert(block_count * reg <= group) by (nonlinear_arith)
        requires group == reg * block_count + group % reg, group % reg >= 0;
    assert(x * reg >= 0) by (nonlinear_arith)
        requires x >= 0, reg >= 1;
}

/// Picks, among the blocks from `index` on (and the one before), the block
/// whose first item is least, the tag key breaking ties, and returns its
/// number.
fn grail_select_block<T, F>(arr: &[T], block_pos: usize, index: usize, block_count: usize, reg_block_len: usize, group: Ghost<int>, cmp: &F, Ghost(r): Ghost<spec_fn(T, T) -> Ordering>) -> (sel: usize)
    where
        F: Fn(&T, &T) -> Ordering,
    requires
        compares_by(*cmp, r),
        1 <= index < block_count,
        reg_block_len >= 1,
        block_count == group@ / ix(reg_block_len),
        group@ >= 0,
        block_pos + group@ <= arr@.len(),
        block_count <= arr@.len(),
    ensures
        index - 1 <= sel < block_count,
{
    let n = arr.len();
    let mut left_index = index - 1;
    let mut right_index = index;
    while right_index < block_count
        invariant
            compares_by(*cmp, r),
            1 <= index <= right_index <= block_count,
            index - 1 <= left_index < right_index,
            reg_block_len >= 1,
            block_count == group@ / ix(reg_block_len),
            group@ >= 0,
            n == arr@.len(),
            block_pos + group@ <= arr@.len(),
            block_count <= arr@.len(),
        decreases block_count - right_index,
    {
        proof {
            lemma_block_in_group(ix(left_index), ix(block_count), ix(reg_block_len), group@);
            lemma_block_in_group(ix(right_index), ix(block_count), ix(reg_block_len), group@);
        }
        let take = match cmp(&arr[block_pos + left_index * reg_block_len], &arr[block_pos + right_index * reg_block_len]) {
            Ordering::Greater => true,
            Ordering::Equal => match cmp(&arr[left_index], &arr[right_index]) {
                Ordering::Greater => true,
                _ => false,
            },
            Ordering::Less => false,
        };
        if take {
            left_index = right_index;
        }
        right_index += 1;
    }
    left_index
}

/// Counts the blocks at the back of the group (before its last piece of
/// `last_len` items) whose first item is greater than the first item of
/// that piece: they are merged with the piece directly.
fn grail_count_a_blocks<T, F>(arr: &[T], block_pos: usize, block_count: usize, reg_block_len: usize, last_len: usize, cmp: &F, Ghost(r): Ghost<spec_fn(T, T) -> Ordering>) -> (a_block_count: usize)
    where
        F: Fn(&T, &T) -> Ordering,
    requires
        compares_by(*cmp, r),
        reg_block_len >= 1,
        last_len >= 1,
        block_pos + block_count * reg_block_len + last_len <= arr@.len(),
    ensures
        a_block_count <= block_count,
        forall|j: int| 0 <= j < a_block_count ==> lt(r, arr@[block_pos + block_count * reg_block_len],
            #[trigger] arr@[block_pos + (block_count - j - 1) * reg_block_len]),
        a_block_count < block_count ==> !lt(r, arr@[block_pos + block_count * reg_block_len],
            arr@[block_pos + (block_count - a_block_count - 1) * reg_block_len]),
{
    let n = arr.len();
    let mut a_block_count: usize = 0;
    proof {
        assert(block_count * reg_block_len >= 0) by (nonlinear_arith)
            requires reg_block_len >= 1;
    }
    loop
        invariant
            compares_by(*cmp, r),
            n == arr@.len(),
            reg_block_len >= 1,
            block_pos + block_count * reg_block_len + last_len <= n,
            last_len >= 1,
            a_block_count <= block_count,
            forall|j: int| 0 <= j < a_block_count ==> lt(r, arr@[block_pos + block_count * reg_block_len],
                #[trigger] arr@[block_pos + (block_count - j - 1) * reg_block_len]),
        ensures
            a_block_count <= block_count,
            forall|j: int| 0 <= j < a_block_count ==> lt(r, arr@[block_pos + block_count * reg_block_len],
                #[trigger] arr@[block_pos + (block_count - j - 1) * reg_block_len]),
            a_block_count < block_count ==> !lt(r, arr@[block_pos + block_count * reg_block_len],
                arr@[block_pos + (block_count - a_block_count - 1) * reg_block_len]),
        decreases block_count - a_block_count,
    {
        if a_block_count >= block_count {
            break;
        }
        proof {
            assert((block_count - a_block_count - 1) * reg_block_len + reg_block_len <= block_count * reg_block_len
                && (block_count - a_block_count - 1) * reg_block_len >= 0) by (nonlinear_arith)
                requires a_block_count < block_count, reg_block_len >= 1;
        }
        let is_less = match cmp(&arr[block_pos + block_count * reg_block_len], &arr[block_pos + (block_count - a_block_count - 1) * reg_block_len]) {
            Ordering::Less => true,
            _ => false,
        };
        if !is_less {
            break;
        }
        a_block_count += 1;
    }
    a_block_count
}

/// The conditions under which `grail_combine_blocks` stays inside the slice
/// and the keys at its front: the keys that the groups of blocks of
/// `reg_block_len` items need, when runs of `build_len` items among
/// `data_len` items are merged in pairs, are among the first `key_cap`.
pub open spec fn blocks_fit(data_len: int, build_len: int, reg_block_len: int, key_cap: int) -> bool {
    &&& reg_block_len >= 1
    &&& build_len >= 1
    &&& (data_len >= 2 * build_len ==> (2 * build_len) / reg_block_len <= key_cap)
    &&& (data_len % (2 * build_len) > build_len ==> (data_len % (2 * build_len)) / reg_block_len + 1 <= key_cap)
    &&& build_len / reg_block_len < key_cap
}

/// Merges the runs of `build_len` items at `base` pairwise, block by block:
/// each pair of runs is cut into blocks of `reg_block_len` items, tagged by
/// the keys at the front of `arr` (the first `key_cap` items), the blocks
/// are put in order by their first items (the tags break ties and track
/// which run a block came from), and then merged in sequence, through the
/// buffer of `reg_block_len` items before `base` when `have_buffer`. A last
/// pair of a run and a shorter remainder is merged the same way; a lone
/// remainder is left as it is. At the end the buffer is carried back in
/// front of the runs.
fn grail_combine_blocks<T, F>(arr: &mut [T], key_cap: usize, base: usize, len: usize, build_len: usize, reg_block_len: usize, have_buffer: bool, cmp: &F, Ghost(r): Ghost<spec_fn(T, T) -> Ordering>)
    where
        F: Fn(&T, &T) -> Ordering,
    requires
        compares_by(*cmp, r),
        key_cap <= old(arr)@.len(),
        base + len <= old(arr)@.len(),
        2 * build_len <= usize::MAX,
        have_buffer ==> reg_block_len <= base,
        blocks_fit(ix(len), ix(build_len), ix(reg_block_len), ix(key_cap)),
    ensures
        final(arr)@.len() == old(arr)@.len(),
        final(arr)@.to_multiset() == old(arr)@.to_multiset(),
{
    let ghost s0 = arr@;
    let n = arr.len();
    let ghost g = 2 * build_len;
    proof {
        lemma_fundamental_div_mod(ix(len), g);
    }
    let combined_len = len / (2 * build_len);
    let mut left_over = len % (2 * build_len);
    proof {
        assert(ix(len) == combined_len * g + left_over) by (nonlinear_arith)
            requires ix(len) == g * (ix(len) / g) + ix(len) % g, combined_len == ix(len) / g, left_over == ix(len) % g;
        assert(combined_len >= 1 ==> ix(len) >= g) by (nonlinear_arith)
            requires ix(len) == combined_len * g + left_over, left_over >= 0, g >= 0;
        assert(combined_len < usize::MAX) by (nonlinear_arith)
            requires ix(len) == combined_len * g + left_over, left_over >= 0, g >= 2, len <= usize::MAX;
    }
    let mut len = len;
    if left_over <= build_len {
        len -= left_over;
        left_over = 0;
    }
    let mut i: usize = 0;
    while i <= combined_len
        invariant
            compares_by(*cmp, r),
            n == s0.len(),
            arr@.len() == n,
            key_cap <= n,
            base + len <= n,
            reg_block_len >= 1,
            build_len >= 1,
            g == 2 * build_len,
            g <= usize::MAX,
            have_buffer ==> reg_block_len <= base,
            len == combined_len * g + left_over,
            combined_len < usize::MAX,
            left_over == 0 || (build_len < left_over < g),
            combined_len >= 1 ==> g / ix(reg_block_len) <= key_cap,
            left_over > 0 ==> ix(left_over) / ix(reg_block_len) + 1 <= key_cap,
            build_len / reg_block_len < key_cap,
            arr@.to_multiset() == s0.to_multiset(),
        decreases combined_len + 1 - i,
    {
        if i == combined_len && left_over == 0 {
            break;
        }
        proof {
            assert(i * g + g <= combined_len * g || i == combined_len) by (nonlinear_arith)
                requires i <= combined_len, g >= 0;
            assert(i * g <= combined_len * g) by (nonlinear_arith)
                requires i <= combined_len, g >= 0;
        }
        let block_pos = base + i * (2 * build_len);
        let group = if i == combined_len { left_over } else { 2 * build_len };
        let block_count = group / reg_block_len;
        let key_sort_len = if i == combined_len { block_count + 1 } else { block_count };
        proof {
            vstd::arithmetic::div_mod::lemma_div_is_ordered(ix(build_len), ix(group), ix(reg_block_len));
            lemma_fundamental_div_mod(ix(group), ix(reg_block_len));
            assert(block_count * reg_block_len <= group) by (nonlinear_arith)
                requires group == reg_block_len * block_count + group % reg_block_len, group % reg_block_len >= 0;
        }
        grail_insert_sort(arr, key_sort_len, cmp, Ghost(r));
        let mut midkey = build_len / reg_block_len;
        let mut index: usize = 1;
        while index < block_count
            invariant
                compares_by(*cmp, r),
                n == s0.len(),
                arr@.len() == n,
                block_pos + group <= n,
                reg_block_len >= 1,
                block_count == ix(group) / ix(reg_block_len),
                block_count <= key_cap <= n,
                midkey < key_cap,
                1 <= index,
                arr@.to_multiset() == s0.to_multiset(),
            decreases block_count - index,
        {
            let left_index = grail_select_block(arr, block_pos, index, block_count, reg_block_len, Ghost(ix(group)), cmp, Ghost(r));
            if left_index != index - 1 {
                proof {
                    lemma_block_in_group(index - 1, ix(block_count), ix(reg_block_len), ix(group));
                    lemma_block_in_group(ix(left_index), ix(block_count), ix(reg_block_len), ix(group));
                }
                grail_multi_swap(arr, block_pos + (index - 1) * reg_block_len, block_pos + left_index * reg_block_len, reg_block_len);
                proof {
                    lemma_swapped_multiset(arr@, index - 1, ix(left_index));
                }
                swap_items(arr, index - 1, left_index);
                if midkey == index - 1 || midkey == left_index {
                    let prev = index - 1;
                    let other = prev ^ left_index;
                    proof {
                        assert(prev ^ other == left_index && left_index ^ other == prev) by (bit_vector)
                            requires other == prev ^ left_index;
                    }
                    midkey ^= other;
                }
            }
            index += 1;
        }
        let last_len = if i == combined_len { left_over % reg_block_len } else { 0 };
        proof {
            assert(block_count * reg_block_len + last_len <= group) by (nonlinear_arith)
                requires group == reg_block_len * block_count + group % reg_block_len,
                    last_len == 0 || last_len == group % reg_block_len, block_count * reg_block_len <= group;
            assert(block_pos + group <= n);
        }
        let mut a_block_count: usize = 0;
        if last_len != 0 {
            a_block_count = grail_count_a_blocks(arr, block_pos, block_count, reg_block_len, last_len, cmp, Ghost(r));
        }
        proof {
            assert((block_count - a_block_count + a_block_count) * reg_block_len == block_count * reg_block_len);
        }
        grail_merge_buffers_left(arr, 0, midkey, block_pos, block_count - a_block_count, reg_block_len, have_buffer, a_block_count, last_len, cmp, Ghost(r));
        i += 1;
    }
    if have_buffer {
        let mut len2 = len;
        while len2 > 0
            invariant
                n == s0.len(),
                arr@.len() == n,
                base + len <= n,
                reg_block_len <= base,
                len2 <= len,
                arr@.to_multiset() == s0.to_multiset(),
            decreases len2,
        {
            len2 -= 1;
            proof {
                lemma_swapped_multiset(arr@, base + len2, base + len2 - reg_block_len);
            }
            swap_items(arr, base + len2, base + len2 - reg_block_len);
        }
    }
}

/// The items of `s` at `lo..hi` increase strictly under `r`: no two of them
/// are equivalent.
pub open spec fn strictly_sorted_between<T>(s: Seq<T>, lo: int, hi: int, r: spec_fn(T, T) -> Ordering) -> bool {
    forall|i: int, j: int| lo <= i < j < hi ==> lt(r, #[trigger] s[i], #[trigger] s[j])
}

/// The two rotations of `grail_find_keys` move its keys from `fk` up to just
/// before the new key `e` at `dist`, and then insert `e` among them at
/// `loc`; the keys stay strictly increasing.
proof fn lemma_keys_insert<T>(a0: Seq<T>, a1: Seq<T>, a2: Seq<T>, fk: int, kf: int, dist: int, loc: int, r: spec_fn(T, T) -> Ordering)
    requires
        is_total_preorder(r),
        0 <= fk,
        fk + kf <= dist < a0.len(),
        0 <= loc <= kf,
        a1 == rotated_range(a0, kf, fk, dist),
        a2 == rotated_range(a1, kf - loc, dist - kf + loc, dist + 1),
        strictly_sorted_between(a0, fk, fk + kf, r),
        loc > 0 ==> lt(r, a0[fk + loc - 1], a0[dist]),
        loc < kf ==> lt(r, a0[dist], a0[fk + loc]),
    ensures
        strictly_sorted_between(a2, dist - kf, dist + 1, r),
        a2.len() == a0.len(),
        a2.subrange(dist - kf, dist + 1) == a0.subrange(fk, fk + loc) + seq![a0[dist]] + a0.subrange(fk + loc, fk + kf),
        a2.subrange(0, dist - kf) == a0.subrange(0, fk) + a0.subrange(fk + kf, dist),
        forall|k: int| dist < k < a0.len() ==> #[trigger] a2[k] == a0[k],
{
    lemma_order_facts(r);
    let e = a0[dist];
    let base = dist - kf;
    // The keys after the insertion, in terms of the keys before it.
    assert forall|t: int| 0 <= t <= kf implies #[trigger] a2[base + t]
        == if t < loc { a0[fk + t] } else if t == loc { e } else { a0[fk + t - 1] } by {
        if t < loc {
            assert(a2[base + t] == a1[base + t]);
            assert(a1[base + t] == a0[fk + t]);
        } else if t == loc {
            assert(a2[base + t] == a1[dist]);
        } else {
            assert(a2[base + t] == a1[base + t - 1]);
            assert(a1[base + t - 1] == a0[fk + t - 1]);
        }
    }
    assert(a2.subrange(dist - kf, dist + 1) =~= a0.subrange(fk, fk + loc) + seq![a0[dist]] + a0.subrange(fk + loc, fk + kf)) by {
        assert forall|t: int| 0 <= t <= kf implies #[trigger] a2.subrange(dist - kf, dist + 1)[t]
            == (a0.subrange(fk, fk + loc) + seq![a0[dist]] + a0.subrange(fk + loc, fk + kf))[t] by {
            assert(a2[base + t] == a2.subrange(dist - kf, dist + 1)[t]);
        }
    }
    assert(a2.subrange(0, dist - kf) =~= a0.subrange(0, fk) + a0.subrange(fk + kf, dist));
    assert forall|i: int, j: int| base <= i < j < dist + 1 implies lt(r, #[trigger] a2[i], #[trigger] a2[j]) by {
        let ti = i - base;
        let tj = j - base;
        assert(a2[base + ti] == a2[i]);
        assert(a2[base + tj] == a2[j]);
        if tj < loc {
            assert(lt(r, a0[fk + ti], a0[fk + tj]));
        } else if tj == loc {
            if ti < loc - 1 {
                assert(lt(r, a0[fk + ti], a0[fk + loc - 1]));
                assert(le(r, a0[fk + ti], a0[fk + loc - 1]));
            }
        } else if ti < loc {
            assert(lt(r, a0[fk + ti], a0[fk + tj - 1]));
        } else if ti == loc {
            if tj - 1 > loc {
                assert(lt(r, a0[fk + loc], a0[fk + tj - 1]));
                assert(le(r, a0[fk + loc], a0[fk + tj - 1]));
            }
        } else {
            assert(lt(r, a0[fk + ti - 1], a0[fk + tj - 1]));
        }
    }
}

/// `z` is equivalent to one of `keys`.
pub open spec fn equivalent_to_some<T>(z: T, keys: Seq<T>, r: spec_fn(T, T) -> Ordering) -> bool {
    exists|q: int| 0 <= q < keys.len() && #[trigger] r(z, keys[q]) == Ordering::Equal
}

/// Every item of `pq` is equivalent to one of `keys`.
pub open spec fn covered_by<T>(pq: Seq<T>, keys: Seq<T>, r: spec_fn(T, T) -> Ordering) -> bool {
    forall|p: int| 0 <= p < pq.len() ==> #[trigger] equivalent_to_some(pq[p], keys, r)
}

/// The class of `x` in a sequence none of whose items is equivalent to
/// `x` is empty.
proof fn lemma_class_none<T>(s: Seq<T>, x: T, r: spec_fn(T, T) -> Ordering)
    requires
        forall|i: int| 0 <= i < s.len() ==> r(#[trigger] s[i], x) != Ordering::Equal,
    ensures
        class_in(s, x, r) == Seq::<T>::empty(),
{
    if class_in(s, x, r).len() > 0 {
        lemma_class_witness(s, x, r);
    }
    assert(class_in(s, x, r) =~= Seq::<T>::empty());
}

/// An item equivalent to a key joins the items behind the keys: the keys
/// and those items stay a stable reordering of what has been scanned.
proof fn lemma_keys_reject<T>(keys: Seq<T>, pq: Seq<T>, s: Seq<T>, e: T, q: int, r: spec_fn(T, T) -> Ordering)
    requires
        stable_perm(keys + pq, s, r),
        covered_by(pq, keys, r),
        0 <= q < keys.len(),
        r(e, keys[q]) == Ordering::Equal,
    ensures
        stable_perm(keys + pq.push(e), s.push(e), r),
        covered_by(pq.push(e), keys, r),
{
    assert(keys + pq.push(e) =~= (keys + pq).push(e));
    assert forall|x: T| #[trigger] class_in(keys + pq.push(e), x, r) == class_in(s.push(e), x, r) by {
        lemma_class_push(keys + pq, e, x, r);
        lemma_class_push(s, e, x, r);
    }
    assert forall|p: int| 0 <= p < pq.push(e).len() implies #[trigger] equivalent_to_some(pq.push(e)[p], keys, r) by {
        if p < pq.len() {
            assert(pq.push(e)[p] == pq[p]);
        } else {
            assert(pq.push(e)[p] == e);
            assert(r(pq.push(e)[p], keys[q]) == Ordering::Equal);
        }
    }
    assert(covered_by(pq.push(e), keys, r));
}

/// A new key that lies strictly between the keys before `loc` and those
/// from `loc` on is equivalent to none of them.
proof fn lemma_new_key<T>(keys: Seq<T>, e: T, loc: int, r: spec_fn(T, T) -> Ordering)
    requires
        is_total_preorder(r),
        strictly_sorted_between(keys, 0, len_of(keys), r),
        0 <= loc <= keys.len(),
        loc > 0 ==> lt(r, keys[loc - 1], e),
        loc < keys.len() ==> lt(r, e, keys[loc]),
    ensures
        forall|q: int| 0 <= q < keys.len() ==> r(#[trigger] keys[q], e) != Ordering::Equal,
{
    lemma_order_facts(r);
    assert forall|q: int| 0 <= q < keys.len() implies r(#[trigger] keys[q], e) != Ordering::Equal by {
        if q < loc {
            if q < loc - 1 {
                assert(lt(r, keys[q], keys[loc - 1]));
                assert(le(r, keys[q], keys[loc - 1]));
            }
            assert(lt(r, keys[q], e));
        } else {
            if q > loc {
                assert(lt(r, keys[loc], keys[q]));
                assert(le(r, keys[loc], keys[q]));
            }
            assert(lt(r, e, keys[q]));
            assert(r(e, keys[q]) == Ordering::Less <==> r(keys[q], e) == Ordering::Greater);
        }
    }
}

/// The class of `x` after `e`, equivalent to no key nor to any item behind
/// the keys, joins the keys: it is the class of `x` with `e` at its end.
proof fn lemma_insert_class<T>(k1: Seq<T>, k3: Seq<T>, pq: Seq<T>, s: Seq<T>, e: T, x: T, r: spec_fn(T, T) -> Ordering)
    requires
        is_total_preorder(r),
        class_in(k1 + k3 + pq, x, r) == class_in(s, x, r),
        forall|q: int| 0 <= q < k1.len() ==> r(#[trigger] k1[q], e) != Ordering::Equal,
        forall|q: int| 0 <= q < k3.len() ==> r(#[trigger] k3[q], e) != Ordering::Equal,
        forall|q: int| 0 <= q < pq.len() ==> r(#[trigger] pq[q], e) != Ordering::Equal,
    ensures
        class_in(k1 + seq![e] + k3 + pq, x, r) == class_in(s.push(e), x, r),
{
    lemma_class_push(s, e, x, r);
    lemma_class_concat(k1 + seq![e] + k3, pq, r);
    lemma_class_concat(k1 + seq![e], k3, r);
    lemma_class_concat(k1, seq![e], r);
    lemma_class_concat(k1 + k3, pq, r);
    lemma_class_concat(k1, k3, r);
    lemma_class_push(Seq::<T>::empty(), e, x, r);
    assert(Seq::<T>::empty().push(e) =~= seq![e]);
    assert(Seq::<T>::empty().filter(|y: T| r(y, x) == Ordering::Equal) =~= Seq::<T>::empty()) by {
        reveal(Seq::filter);
    }
    if r(e, x) == Ordering::Equal {
        lemma_order_facts(r);
        assert forall|i: int| 0 <= i < k1.len() implies r(#[trigger] k1[i], x) != Ordering::Equal by {
            assert(r(x, e) == Ordering::Less <==> r(e, x) == Ordering::Greater);
            assert(r(e, x) == Ordering::Less <==> r(x, e) == Ordering::Greater);
            if r(k1[i], x) == Ordering::Equal {
                lemma_equal_trans(r, k1[i], e, x);
            }
        }
        assert forall|i: int| 0 <= i < k3.len() implies r(#[trigger] k3[i], x) != Ordering::Equal by {
            assert(r(x, e) == Ordering::Less <==> r(e, x) == Ordering::Greater);
            assert(r(e, x) == Ordering::Less <==> r(x, e) == Ordering::Greater);
            if r(k3[i], x) == Ordering::Equal {
                lemma_equal_trans(r, k3[i], e, x);
            }
        }
        assert forall|i: int| 0 <= i < pq.len() implies r(#[trigger] pq[i], x) != Ordering::Equal by {
            assert(r(x, e) == Ordering::Less <==> r(e, x) == Ordering::Greater);
            assert(r(e, x) == Ordering::Less <==> r(x, e) == Ordering::Greater);
            if r(pq[i], x) == Ordering::Equal {
                lemma_equal_trans(r, pq[i], e, x);
            }
        }
        lemma_class_none(k1, x, r);
        lemma_class_none(k3, x, r);
        lemma_class_none(pq, x, r);
    }
}

/// A new key inserted among the keys at its place keeps the keys and the
/// items behind them a stable reordering of what has been scanned.
proof fn lemma_keys_accept<T>(keys: Seq<T>, pq: Seq<T>, s: Seq<T>, e: T, loc: int, r: spec_fn(T, T) -> Ordering)
    requires
        is_total_preorder(r),
        stable_perm(keys + pq, s, r),
        covered_by(pq, keys, r),
        strictly_sorted_between(keys, 0, len_of(keys), r),
        0 <= loc <= keys.len(),
        loc > 0 ==> lt(r, keys[loc - 1], e),
        loc < keys.len() ==> lt(r, e, keys[loc]),
    ensures
        ({
            let k2 = keys.subrange(0, loc) + seq![e] + keys.subrange(loc, len_of(keys));
            &&& stable_perm(k2 + pq, s.push(e), r)
            &&& covered_by(pq, k2, r)
        }),
{
    let k1 = keys.subrange(0, loc);
    let k3 = keys.subrange(loc, len_of(keys));
    let k2 = k1 + seq![e] + k3;
    assert(keys =~= k1 + k3);
    lemma_new_key(keys, e, loc, r);
    // The keys keep their places in `k2`, shifted past `e`.
    assert forall|q: int| 0 <= q < keys.len() implies #[trigger] keys[q] == k2[if q < loc { q } else { q + 1 }] by {
    }
    assert forall|p: int| 0 <= p < pq.len() implies #[trigger] equivalent_to_some(pq[p], k2, r) by {
        assert(equivalent_to_some(pq[p], keys, r));
        let q = choose|q: int| 0 <= q < keys.len() && #[trigger] r(pq[p], keys[q]) == Ordering::Equal;
        let q2 = if q < loc { q } else { q + 1 };
        assert(keys[q] == k2[q2]);
        assert(r(pq[p], k2[q2]) == Ordering::Equal);
    }
    assert(covered_by(pq, k2, r));
    // No item behind the keys is equivalent to `e`.
    assert forall|i: int| 0 <= i < pq.len() implies r(#[trigger] pq[i], e) != Ordering::Equal by {
        assert(equivalent_to_some(pq[i], keys, r));
        let q = choose|q: int| 0 <= q < keys.len() && #[trigger] r(pq[i], keys[q]) == Ordering::Equal;
        if r(pq[i], e) == Ordering::Equal {
            lemma_order_facts(r);
            assert(r(pq[i], keys[q]) == Ordering::Less <==> r(keys[q], pq[i]) == Ordering::Greater);
            assert(r(keys[q], pq[i]) == Ordering::Less <==> r(pq[i], keys[q]) == Ordering::Greater);
            lemma_equal_trans(r, keys[q], e, pq[i]);
            assert(r(keys[q], e) == Ordering::Equal);
        }
    }
    assert forall|q: int| 0 <= q < k1.len() implies r(#[trigger] k1[q], e) != Ordering::Equal by {
        assert(k1[q] == keys[q]);
    }
    assert forall|q: int| 0 <= q < k3.len() implies r(#[trigger] k3[q], e) != Ordering::Equal by {
        assert(k3[q] == keys[loc + q]);
    }
    assert forall|x: T| #[trigger] class_in(k2 + pq, x, r) == class_in(s.push(e), x, r) by {
        assert(class_in(k1 + k3 + pq, x, r) == class_in(s, x, r));
        lemma_insert_class(k1, k3, pq, s, e, x, r);
    }
}

/// The keys gathered so far by `grail_find_keys`: the `kf` items at `fk`.
pub open spec fn keys_at<T>(s: Seq<T>, fk: int, kf: int) -> Seq<T> {
    s.subrange(fk, fk + kf)
}

/// No item before position `i` of `s` is equivalent to the one at `i`: it is
/// the first of its class.
pub open spec fn first_of_class<T>(s: Seq<T>, i: int, r: spec_fn(T, T) -> Ordering) -> bool {
    forall|j: int| 0 <= j < i ==> r(#[trigger] s[j], s[i]) != Ordering::Equal
}

/// The first item of each class among the first `n` items of `s`, in order.
pub open spec fn firsts<T>(s: Seq<T>, n: int, r: spec_fn(T, T) -> Ordering) -> Seq<T>
    decreases n,
{
    if n <= 0 {
        Seq::empty()
    } else if first_of_class(s, n - 1, r) {
        firsts(s, n - 1, r).push(s[n - 1])
    } else {
        firsts(s, n - 1, r)
    }
}

/// The other items among the first `n` items of `s`, in order.
pub open spec fn non_firsts<T>(s: Seq<T>, n: int, r: spec_fn(T, T) -> Ordering) -> Seq<T>
    decreases n,
{
    if n <= 0 {
        Seq::empty()
    } else if first_of_class(s, n - 1, r) {
        non_firsts(s, n - 1, r)
    } else {
        non_firsts(s, n - 1, r).push(s[n - 1])
    }
}

/// An item equivalent to an item of `s` makes the class of `s` nonempty.
proof fn lemma_class_has<T>(s: Seq<T>, j: int, x: T, r: spec_fn(T, T) -> Ordering)
    requires
        0 <= j < s.len(),
        r(s[j], x) == Ordering::Equal,
    ensures
        class_in(s, x, r).len() > 0,
{
    s.lemma_filter_contains(|y: T| r(y, x) == Ordering::Equal, j);
}

/// The other items scanned so far by `grail_find_keys`: those before the
/// keys and those after them, up to `dist`.
pub open spec fn others_at<T>(s: Seq<T>, fk: int, kf: int, dist: int) -> Seq<T> {
    s.subrange(0, fk) + s.subrange(fk + kf, dist)
}

/// An item that no key is equivalent to is equivalent to no item scanned
/// so far.
proof fn lemma_unseen<T>(keys: Seq<T>, pq: Seq<T>, s: Seq<T>, e: T, r: spec_fn(T, T) -> Ordering)
    requires
        is_total_preorder(r),
        stable_perm(keys + pq, s, r),
        covered_by(pq, keys, r),
        forall|q: int| 0 <= q < keys.len() ==> r(#[trigger] keys[q], e) != Ordering::Equal,
    ensures
        forall|j: int| 0 <= j < s.len() ==> r(#[trigger] s[j], e) != Ordering::Equal,
{
    assert forall|j: int| 0 <= j < s.len() implies r(#[trigger] s[j], e) != Ordering::Equal by {
        if r(s[j], e) == Ordering::Equal {
            lemma_class_has(s, j, e, r);
            assert(class_in(keys + pq, e, r) == class_in(s, e, r));
            lemma_class_witness(keys + pq, e, r);
            let i = choose|i: int| 0 <= i < (keys + pq).len() && r(#[trigger] (keys + pq)[i], e) == Ordering::Equal;
            let z = (keys + pq)[i];
            if i < keys.len() {
                assert(z == keys[i]);
            } else {
                assert(z == pq[i - keys.len()]);
                assert(equivalent_to_some(pq[i - keys.len()], keys, r));
                let q = choose|q: int| 0 <= q < keys.len() && #[trigger] r(z, keys[q]) == Ordering::Equal;
                assert(r(keys[q], z) == Ordering::Equal) by {
                    assert(r(keys[q], z) == Ordering::Less <==> r(z, keys[q]) == Ordering::Greater);
                    assert(r(keys[q], z) == Ordering::Greater <==> r(z, keys[q]) == Ordering::Less);
                }
                assert(r(e, z) == Ordering::Equal) by {
                    assert(r(e, z) == Ordering::Less <==> r(z, e) == Ordering::Greater);
                    assert(r(e, z) == Ordering::Greater <==> r(z, e) == Ordering::Less);
                }
                lemma_equal_trans(r, keys[q], e, z);
            }
        }
    }
}

/// Gathers at the front of the first `len` items up to `key_count` items no
/// two of which are equivalent (the first item of each class, found by a
/// binary search among those gathered so far), and returns how many it
/// gathered; they stand at the front in increasing order, and the other
/// items keep their order behind them.
fn grail_find_keys<T, F>(arr: &mut [T], len: usize, key_count: usize, cmp: &F, Ghost(r): Ghost<spec_fn(T, T) -> Ordering>) -> (keys_found: usize)
    where
        F: Fn(&T, &T) -> Ordering,
    requires
        compares_by(*cmp, r),
        1 <= len <= old(arr)@.len(),
    ensures
        final(arr)@.len() == old(arr)@.len(),
        final(arr)@.to_multiset() == old(arr)@.to_multiset(),
        1 <= keys_found <= len,
        keys_found <= key_count || keys_found == 1,
        strictly_sorted_between(final(arr)@, 0, ix(keys_found), r),
        stable_perm(final(arr)@, old(arr)@, r),
        keys_found < key_count ==> covered_by(final(arr)@.subrange(ix(keys_found), ix(len)),
            final(arr)@.subrange(0, ix(keys_found)), r),
        forall|k: int| len <= k < old(arr)@.len() ==> #[trigger] final(arr)@[k] == old(arr)@[k],
        exists|dist: int| {
            &&& keys_found <= dist <= len
            &&& (keys_found < key_count ==> dist == len)
            &&& final(arr)@.subrange(0, ix(keys_found)).to_multiset() == firsts(old(arr)@, dist, r).to_multiset()
            &&& final(arr)@.subrange(ix(keys_found), dist) == non_firsts(old(arr)@, dist, r)
            &&& forall|k: int| dist <= k < old(arr)@.len() ==> #[trigger] final(arr)@[k] == old(arr)@[k]
        },
{
    let ghost s0 = arr@;
    let n = arr.len();
    let mut dist: usize = 1;
    let mut keys_found: usize = 1;
    let mut first_key: usize = 0;
    proof {
        lemma_order_facts(r);
        assert(keys_at(arr@, 0, 1) + others_at(arr@, 0, 1, 1) =~= s0.subrange(0, 1));
        assert(covered_by(others_at(arr@, 0, 1, 1), keys_at(arr@, 0, 1), r));
        assert(first_of_class(s0, 0, r));
        assert(firsts(s0, 0, r) =~= Seq::<T>::empty());
        assert(firsts(s0, 1, r) =~= seq![s0[0]]);
        assert(keys_at(arr@, 0, 1) =~= seq![s0[0]]);
        assert(non_firsts(s0, 0, r) =~= Seq::<T>::empty());
        assert(non_firsts(s0, 1, r) == non_firsts(s0, 0, r));
        assert(others_at(arr@, 0, 1, 1) =~= non_firsts(s0, 1, r));
    }
    while dist < len && keys_found < key_count
        invariant
            compares_by(*cmp, r),
            is_total_preorder(r),
            n == s0.len(),
            arr@.len() == n,
            len <= n,
            1 <= keys_found,
            keys_found <= key_count || keys_found == 1,
            first_key + keys_found <= dist <= len,
            arr@.to_multiset() == s0.to_multiset(),
            strictly_sorted_between(arr@, ix(first_key), first_key + keys_found, r),
            stable_perm(keys_at(arr@, ix(first_key), ix(keys_found)) + others_at(arr@, ix(first_key), ix(keys_found), ix(dist)),
                s0.subrange(0, ix(dist)), r),
            covered_by(others_at(arr@, ix(first_key), ix(keys_found), ix(dist)), keys_at(arr@, ix(first_key), ix(keys_found)), r),
            forall|k: int| dist <= k < n ==> #[trigger] arr@[k] == s0[k],
            keys_at(arr@, ix(first_key), ix(keys_found)).to_multiset() == firsts(s0, ix(dist), r).to_multiset(),
            others_at(arr@, ix(first_key), ix(keys_found), ix(dist)) == non_firsts(s0, ix(dist), r),
        decreases len - dist,
    {
        let ghost a0 = arr@;
        let ghost fk = ix(first_key);
        let ghost kf = ix(keys_found);
        let ghost keys = keys_at(a0, fk, kf);
        let ghost pq = others_at(a0, fk, kf, ix(dist));
        proof {
            assert forall|i: int, j: int| 0 <= i < j < keys.len() implies lt(r, #[trigger] keys[i], #[trigger] keys[j]) by {
                assert(keys[i] == a0[fk + i] && keys[j] == a0[fk + j]);
            }
            assert(s0.subrange(0, dist + 1) =~= s0.subrange(0, ix(dist)).push(a0[ix(dist)]));
        }
        let loc = grail_binary_search(arr, first_key, keys_found, &arr[dist], false, cmp, Ghost(r));
        let is_new = if loc == keys_found {
            true
        } else {
            match cmp(&arr[dist], &arr[first_key + loc]) {
                Ordering::Equal => false,
                _ => true,
            }
        };
        if is_new {
            proof {
                if loc < keys_found {
                    assert(r(a0[ix(dist)], a0[first_key + loc]) == Ordering::Less
                        <==> r(a0[first_key + loc], a0[ix(dist)]) == Ordering::Greater);
                    assert(lt(r, a0[ix(dist)], a0[first_key + loc]));
                    assert(keys[ix(loc)] == a0[first_key + loc]);
                }
                if loc > 0 {
                    assert(keys[loc - 1] == a0[first_key + loc - 1]);
                }
                lemma_keys_accept(keys, pq, s0.subrange(0, ix(dist)), a0[ix(dist)], ix(loc), r);
            }
            grail_rotate(arr, first_key, keys_found, dist - (first_key + keys_found));
            let ghost a1 = arr@;
            first_key = dist - keys_found;
            grail_rotate(arr, first_key + loc, keys_found - loc, 1);
            proof {
                lemma_keys_insert(a0, a1, arr@, fk, kf, ix(dist), ix(loc), r);
                assert(keys.subrange(0, ix(loc)) =~= a0.subrange(fk, fk + loc));
                assert(keys.subrange(ix(loc), len_of(keys)) =~= a0.subrange(fk + loc, fk + kf));
                assert(keys_at(arr@, ix(first_key), kf + 1) =~= keys.subrange(0, ix(loc)) + seq![a0[ix(dist)]] + keys.subrange(ix(loc), len_of(keys)));
                assert(others_at(arr@, ix(first_key), kf + 1, dist + 1) =~= pq);
                let e = a0[ix(dist)];
                let pre = s0.subrange(0, ix(dist));
                lemma_new_key(keys, e, ix(loc), r);
                lemma_unseen(keys, pq, pre, e, r);
                assert(e == s0[ix(dist)]);
                assert forall|j: int| 0 <= j < dist implies r(#[trigger] s0[j], s0[ix(dist)]) != Ordering::Equal by {
                    assert(pre[j] == s0[j]);
                }
                assert(first_of_class(s0, ix(dist), r));
                assert(firsts(s0, dist + 1, r) == firsts(s0, ix(dist), r).push(e));
                assert(non_firsts(s0, dist + 1, r) == non_firsts(s0, ix(dist), r));
                let k1 = keys.subrange(0, ix(loc));
                let k3 = keys.subrange(ix(loc), len_of(keys));
                assert(keys =~= k1 + k3);
                vstd::seq_lib::lemma_multiset_commutative(k1, k3);
                vstd::seq_lib::lemma_multiset_commutative(k1 + seq![e], k3);
                vstd::seq_lib::lemma_multiset_commutative(k1, seq![e]);
                assert(seq![e] =~= Seq::<T>::empty().push(e));
                assert((k1 + seq![e] + k3).to_multiset() =~= keys.to_multiset().insert(e)) by {
                    broadcast use vstd::multiset::group_multiset_axioms;
                    broadcast use vstd::seq_lib::group_to_multiset_ensures;
                    assert(Seq::<T>::empty().to_multiset() =~= vstd::multiset::Multiset::<T>::empty());
                    assert(seq![e].to_multiset() =~= vstd::multiset::Multiset::<T>::empty().insert(e));
                    assert((k1 + seq![e]).to_multiset() =~= k1.to_multiset().add(seq![e].to_multiset()));
                    assert((k1 + seq![e] + k3).to_multiset() =~= (k1 + seq![e]).to_multiset().add(k3.to_multiset()));
                    assert(keys.to_multiset() =~= k1.to_multiset().add(k3.to_multiset()));
                }
                assert(firsts(s0, dist + 1, r).to_multiset() =~= firsts(s0, ix(dist), r).to_multiset().insert(e)) by {
                    broadcast use vstd::seq_lib::group_to_multiset_ensures;
                }
                assert(keys.to_multiset() == firsts(s0, ix(dist), r).to_multiset());
            }
            keys_found += 1;
        } else {
            proof {
                assert(keys[ix(loc)] == a0[first_key + loc]);
                lemma_keys_reject(keys, pq, s0.subrange(0, ix(dist)), a0[ix(dist)], ix(loc), r);
                assert(others_at(arr@, fk, kf, dist + 1) =~= pq.push(a0[ix(dist)]));
                let e = a0[ix(dist)];
                let pre = s0.subrange(0, ix(dist));
                assert(e == s0[ix(dist)]);
                assert(r(keys[ix(loc)], e) == Ordering::Equal) by {
                    assert(r(keys[ix(loc)], e) == Ordering::Less <==> r(e, keys[ix(loc)]) == Ordering::Greater);
                    assert(r(keys[ix(loc)], e) == Ordering::Greater <==> r(e, keys[ix(loc)]) == Ordering::Less);
                }
                assert((keys + pq)[ix(loc)] == keys[ix(loc)]);
                lemma_class_has(keys + pq, ix(loc), e, r);
                assert(class_in(keys + pq, e, r) == class_in(pre, e, r));
                lemma_class_witness(pre, e, r);
                let j = choose|j: int| 0 <= j < pre.len() && r(#[trigger] pre[j], e) == Ordering::Equal;
                assert(pre[j] == s0[j]);
                assert(!first_of_class(s0, ix(dist), r));
                assert(firsts(s0, dist + 1, r) == firsts(s0, ix(dist), r));
                assert(non_firsts(s0, dist + 1, r) == non_firsts(s0, ix(dist), r).push(e));
                assert(keys_at(arr@, fk, kf) =~= keys);
            }
        }
        dist += 1;
    }
    let ghost a = arr@;
    let ghost fk = ix(first_key);
    let ghost kf = ix(keys_found);
    grail_rotate(arr, 0, first_key, keys_found);
    proof {
        assert forall|i: int, j: int| 0 <= i < j < keys_found implies lt(r, #[trigger] arr@[i], #[trigger] arr@[j]) by {
            assert(arr@[i] == a[i + first_key]);
            assert(arr@[j] == a[j + first_key]);
        }
        let fin = arr@;
        assert(fin.subrange(0, ix(dist)) =~= keys_at(a, fk, kf) + others_at(a, fk, kf, ix(dist)));
        assert(fin.subrange(ix(dist), len_of(fin)) =~= s0.subrange(ix(dist), len_of(s0)));
        assert(fin =~= fin.subrange(0, ix(dist)) + fin.subrange(ix(dist), len_of(fin)));
        assert(s0 =~= s0.subrange(0, ix(dist)) + s0.subrange(ix(dist), len_of(s0)));
        lemma_class_concat(fin.subrange(0, ix(dist)), fin.subrange(ix(dist), len_of(fin)), r);
        lemma_class_concat(s0.subrange(0, ix(dist)), s0.subrange(ix(dist), len_of(s0)), r);
        assert(fin.subrange(0, kf) =~= keys_at(a, fk, kf));
        assert(fin.subrange(kf, ix(dist)) =~= others_at(a, fk, kf, ix(dist)));
        assert forall|k: int| len <= k < n implies #[trigger] fin[k] == s0[k] by {
            assert(fin[k] == fin.subrange(ix(dist), len_of(fin))[k - dist]);
        }
        assert forall|k: int| dist <= k < n implies #[trigger] fin[k] == s0[k] by {
            assert(fin[k] == fin.subrange(ix(dist), len_of(fin))[k - dist]);
        }
        assert(fin.subrange(0, kf).to_multiset() == firsts(s0, ix(dist), r).to_multiset());
        assert(fin.subrange(kf, ix(dist)) == non_firsts(s0, ix(dist), r));
    }
    keys_found
}

/// With a buffer as long as the blocks, each pass cuts the runs into blocks
/// of `block_len` items, and the keys gathered for the whole range suffice.
proof fn lemma_fit_buffered(len: int, dist: int, block_len: int, key_count: int, build_len: int)
    requires
        block_len >= 1,
        key_count == (len - 1) / block_len + 1,
        dist >= 1,
        dist <= len,
        build_len >= 1,
        build_len < len - dist,
    ensures
        blocks_fit(len - dist, build_len, block_len, key_count),
{
    let d = len - dist;
    let g = 2 * build_len;
    vstd::arithmetic::div_mod::lemma_fundamental_div_mod(d, g);
    vstd::arithmetic::div_mod::lemma_mod_bound(d, g);
    if d >= g {
        vstd::arithmetic::div_mod::lemma_div_is_ordered(g, len - 1, block_len);
    }
    assert(d % g <= d) by (nonlinear_arith)
        requires d == g * (d / g) + d % g, d >= 0, g >= 1, d % g >= 0, d / g >= 0;
    vstd::arithmetic::div_mod::lemma_div_is_ordered(d % g, len - 1, block_len);
    vstd::arithmetic::div_mod::lemma_div_is_ordered(build_len, len - 1, block_len);
}

/// Without a buffer but with more than 4 keys, where the runs are short
/// enough for it, half of the keys serve as the buffer and the blocks are
/// as long as that half.
proof fn lemma_fit_half_keys(key_count: int, ek: nat, build_len: int, eb: nat)
    requires
        key_count == pow2(ek),
        key_count > 4,
        build_len == pow2(eb),
        build_len >= 2 * key_count,
        key_count / 8 * key_count >= build_len,
    ensures
        forall|d: int| d >= 0 ==> #[trigger] blocks_fit(d, build_len, key_count / 2, key_count),
{
    if ek < 3 {
        vstd::arithmetic::power::lemma_pow0(2);
        lemma_pow2_unfold(1);
        lemma_pow2_unfold(2);
        assert(pow2(0) == 1);
        assert(key_count <= 4);
    }
    vstd::arithmetic::power2::lemma_pow2_adds(3, (ek - 3) as nat);
    lemma_pow2_unfold(1);
    lemma_pow2_unfold(2);
    lemma_pow2_unfold(3);
    vstd::arithmetic::power::lemma_pow0(2);
    let t: int = pow2((ek - 3) as nat) as int;
    assert(key_count == 8 * t);
    lemma_pow2_pos((ek - 3) as nat);
    let reg = key_count / 2;
    assert(reg == 4 * t);
    assert(key_count / 8 == t);
    let g = 2 * build_len;
    assert(g <= 16 * t * t) by (nonlinear_arith)
        requires t * (8 * t) >= build_len, g == 2 * build_len;
    assert(16 * t * t == (4 * t) * (4 * t)) by (nonlinear_arith);
    vstd::arithmetic::div_mod::lemma_div_is_ordered(g, (4 * t) * (4 * t), 4 * t);
    vstd::arithmetic::div_mod::lemma_div_multiples_vanish(4 * t, 4 * t);
    assert(g / reg <= 4 * t);
    assert forall|d: int| d >= 0 implies #[trigger] blocks_fit(d, build_len, key_count / 2, key_count) by {
        vstd::arithmetic::div_mod::lemma_mod_bound(d, g);
        vstd::arithmetic::div_mod::lemma_div_is_ordered(d % g, g, reg);
        vstd::arithmetic::div_mod::lemma_div_is_ordered(build_len, g, reg);
    }
}

/// Without a buffer, the blocks are cut so that a pair of runs holds
/// `calc_keys` blocks, no more than there are keys.
proof fn lemma_fit_calc_keys(key_count: int, calc_keys: int, ec: nat, build_len: int, eb: nat)
    requires
        calc_keys == pow2(ec),
        1 <= calc_keys <= key_count,
        build_len == pow2(eb),
        build_len >= 2 * key_count,
    ensures
        (2 * build_len) / calc_keys >= 1,
        forall|d: int| d >= 0 ==> #[trigger] blocks_fit(d, build_len, (2 * build_len) / calc_keys, key_count),
{
    let g = 2 * build_len;
    lemma_pow2_unfold(eb + 1);
    assert(g == pow2(eb + 1));
    if ec > eb + 1 {
        lemma_pow2_strictly_increases(eb + 1, ec);
    }
    vstd::arithmetic::power2::lemma_pow2_subtracts(ec, eb + 1);
    vstd::arithmetic::power2::lemma_pow2_adds(ec, (eb + 1 - ec) as nat);
    let reg = g / calc_keys;
    assert(reg == pow2((eb + 1 - ec) as nat));
    assert(g == calc_keys * reg);
    vstd::arithmetic::div_mod::lemma_div_multiples_vanish(calc_keys, reg);
    assert(g / reg == calc_keys) by (nonlinear_arith)
        requires g == calc_keys * reg, reg >= 1, (reg * calc_keys) / reg == calc_keys;
    assert((g - 1) / reg == calc_keys - 1) by {
        assert(g - 1 == (calc_keys - 1) * reg + (reg - 1)) by (nonlinear_arith)
            requires g == calc_keys * reg;
        vstd::arithmetic::div_mod::lemma_fundamental_div_mod_converse(g - 1, reg, calc_keys - 1, reg - 1);
    }
    assert(build_len / reg <= calc_keys / 1) by {
        vstd::arithmetic::div_mod::lemma_div_is_ordered(build_len, g, reg);
    }
    assert(build_len / reg < calc_keys) by {
        vstd::arithmetic::div_mod::lemma_fundamental_div_mod(build_len, reg);
        vstd::arithmetic::div_mod::lemma_mod_bound(build_len, reg);
        assert(build_len / reg < calc_keys) by (nonlinear_arith)
            requires build_len == reg * (build_len / reg) + build_len % reg, build_len % reg >= 0,
                g == calc_keys * reg, g == 2 * build_len, reg >= 1, build_len >= 1;
    }
    assert forall|d: int| d >= 0 implies #[trigger] blocks_fit(d, build_len, reg, key_count) by {
        vstd::arithmetic::div_mod::lemma_mod_bound(d, g);
        vstd::arithmetic::div_mod::lemma_div_is_ordered(d % g, g - 1, reg);
    }
}

/// The number of blocks a pair of runs is cut into when there is no
/// buffer: starting from `count`, doubled while it stays below `key_count`,
/// once for each base-8 digit of `i`.
pub open spec fn calc_keys(count: nat, key_count: nat, i: nat) -> nat
    decreases i,
{
    if count < key_count && i != 0 {
        calc_keys(2 * count, key_count, i / 8)
    } else {
        count
    }
}

/// The length of the blocks for a pass of `grail_common_sort` that merges
/// runs of `build_len` items in pairs, and whether their merges go through
/// a buffer. With the buffer of `block_len` items, blocks of that length.
/// Without it, half of the keys serve as the buffer when there are more
/// than 4 keys and the runs are short enough; otherwise each pair of runs
/// is cut into as many blocks as `calc_keys` allows.
fn grail_block_params(block_len: usize, buffer_enabled: bool, key_count: usize, keys_found: usize, build_len: usize, Ghost(ek): Ghost<nat>, Ghost(eb): Ghost<nat>) -> (res: (usize, bool))
    requires
        !buffer_enabled ==> {
            &&& key_count == pow2(ek)
            &&& 4 <= key_count <= keys_found
            &&& build_len == pow2(eb)
            &&& build_len >= 2 * key_count
            &&& 2 * build_len <= usize::MAX
        },
    ensures
        buffer_enabled ==> res == (block_len, true),
        !buffer_enabled ==> {
            &&& key_count > 4 && (key_count / 8) * key_count >= build_len ==> res == (key_count / 2, true)
            &&& !(key_count > 4 && (key_count / 8) * key_count >= build_len) ==> res == (
                ((2 * build_len) / (calc_keys(1, key_count as nat, (build_len * keys_found / 2) as nat) as int)) as usize, false)
            &&& res.1 ==> res.0 <= key_count
            &&& forall|d: int| d >= 0 ==> #[trigger] blocks_fit(d, build_len as int, res.0 as int, key_count as int)
        },
{
    if buffer_enabled {
        return (block_len, true);
    }
    let kc = key_count as u128;
    let bl = build_len as u128;
    let kf = keys_found as u128;
    proof {
        assert(kc <= 0xffff_ffff_ffff_ffffu128 && bl <= 0xffff_ffff_ffff_ffffu128 && kf <= 0xffff_ffff_ffff_ffffu128);
        assert((kc / 8) * kc <= 0xffff_ffff_ffff_ffff_ffff_ffff_ffff_ffffu128) by (nonlinear_arith)
            requires kc <= 0xffff_ffff_ffff_ffffu128;
        assert(bl * kf <= 0xffff_ffff_ffff_ffff_ffff_ffff_ffff_ffffu128) by (nonlinear_arith)
            requires bl <= 0xffff_ffff_ffff_ffffu128, kf <= 0xffff_ffff_ffff_ffffu128;
    }
    let wide_enough = (kc / 8) * kc >= bl;
    if key_count > 4 && wide_enough {
        proof {
            lemma_fit_half_keys(key_count as int, ek, build_len as int, eb);
        }
        return (key_count / 2, true);
    }
    let mut calc: usize = 1;
    let mut i: u128 = (bl * kf) / 2;
    let ghost i0: nat = (build_len * keys_found / 2) as nat;
    let ghost mut ec: nat = 0;
    proof {
        vstd::arithmetic::power::lemma_pow0(2);
    }
    while calc < key_count && i != 0
        invariant
            calc == pow2(ec),
            1 <= calc <= key_count,
            key_count == pow2(ek),
            calc_keys(calc as nat, key_count as nat, i as nat) == calc_keys(1, key_count as nat, i0),
        decreases i,
    {
        proof {
            if ec >= ek {
                if ec > ek {
                    lemma_pow2_strictly_increases(ek, ec);
                }
                assert(false);
            }
            lemma_pow2_double_le(ec, ek);
        }
        calc = calc * 2;
        i = i / 8;
        proof {
            ec = ec + 1;
        }
    }
    proof {
        lemma_fit_calc_keys(key_count as int, calc as int, ec, build_len as int, eb);
    }
    ((2 * build_len) / calc, false)
}

/// The length of the blocks for a range of `len` items (more than 16): the
/// least power of two whose square is at least `len`; it is at least 8, and
/// with the keys for a block each it fits in the range.
fn grail_block_len(len: usize) -> (res: (usize, Ghost<nat>))
    requires
        len > 16,
    ensures
        res.0 == pow2(res.1@),
        res.1@ >= 3,
        8 <= res.0,
        2 * res.0 <= len,
        (len - 1) / (res.0 as int) + 1 + res.0 <= len,
{
    let mut block_len: usize = 1;
    let ghost mut el: nat = 0;
    proof {
        vstd::arithmetic::power::lemma_pow0(2);
    }
    while block_len <= (len - 1) / block_len
        invariant
            len > 16,
            block_len == pow2(el),
            1 <= block_len,
            2 * block_len <= len,
            block_len == 1 <==> el == 0,
            block_len == 2 <==> el == 1,
            block_len == 4 <==> el == 2,
        decreases len - block_len,
    {
        proof {
            vstd::arithmetic::div_mod::lemma_fundamental_div_mod(len - 1, block_len as int);
            assert(block_len * block_len <= len - 1) by (nonlinear_arith)
                requires block_len <= (len - 1) / (block_len as int), block_len >= 1,
                    len - 1 == block_len * ((len - 1) / (block_len as int)) + (len - 1) % (block_len as int),
                    (len - 1) % (block_len as int) < block_len;
            assert(4 * block_len <= len) by (nonlinear_arith)
                requires block_len * block_len <= len - 1, block_len >= 1, len > 16;
            lemma_pow2_unfold(el + 1);
            lemma_pow2_strictly_increases(0, el + 1);
            if el + 1 > 1 {
                lemma_pow2_strictly_increases(1, el + 1);
            }
            if el + 1 > 2 {
                lemma_pow2_strictly_increases(2, el + 1);
            }
            lemma_pow2_unfold(1);
            lemma_pow2_unfold(2);
        }
        block_len = block_len * 2;
        proof {
            el = el + 1;
        }
    }
    proof {
        lemma_pow2_unfold(1);
        lemma_pow2_unfold(2);
        lemma_pow2_unfold(3);
        if block_len <= 4 {
            vstd::arithmetic::div_mod::lemma_div_is_ordered_by_denominator(len - 1, block_len as int, 4);
            vstd::arithmetic::div_mod::lemma_div_is_ordered(16, len - 1, 4);
            assert(16int / 4 == 4);
            assert(false);
        }
        if el > 3 {
            lemma_pow2_strictly_increases(3, el);
        }
        assert(block_len >= 8);
        vstd::arithmetic::div_mod::lemma_div_is_ordered_by_denominator(len - 1, 8, block_len as int);
        vstd::arithmetic::div_mod::lemma_fundamental_div_mod(len - 1, 8);
    }
    (block_len, Ghost(el))
}

/// `s` holds four items no two of which are equivalent under `r`.
pub open spec fn has_four_classes<T>(s: Seq<T>, r: spec_fn(T, T) -> Ordering) -> bool {
    exists|i: int, j: int, k: int, l: int|
        0 <= i < s.len() && 0 <= j < s.len() && 0 <= k < s.len() && 0 <= l < s.len()
        && lt(r, #[trigger] s[i], #[trigger] s[j]) && lt(r, s[j], #[trigger] s[k]) && lt(r, s[k], #[trigger] s[l])
}

/// Four strictly increasing keys at the front of a reordering of `s` are
/// four items of `s` no two of which are equivalent.
proof fn lemma_four_keys<T>(t: Seq<T>, s: Seq<T>, r: spec_fn(T, T) -> Ordering)
    requires
        t.to_multiset() == s.to_multiset(),
        t.len() >= 4,
        strictly_sorted_between(t, 0, 4, r),
    ensures
        has_four_classes(s, r),
{
    broadcast use vstd::seq_lib::group_to_multiset_ensures;
    assert forall|m: int| 0 <= m < 4 implies #[trigger] s.contains(t[m]) by {
        assert(t.contains(t[m]));
        assert(t.to_multiset().count(t[m]) > 0);
        assert(s.to_multiset().count(t[m]) > 0);
    }
    assert(s.contains(t[0]) && s.contains(t[1]) && s.contains(t[2]) && s.contains(t[3]));
    let i = choose|i: int| 0 <= i < s.len() && s[i] == t[0];
    let j = choose|j: int| 0 <= j < s.len() && s[j] == t[1];
    let k = choose|k: int| 0 <= k < s.len() && s[k] == t[2];
    let l = choose|l: int| 0 <= l < s.len() && s[l] == t[3];
    assert(lt(r, t[0], t[1]) && lt(r, t[1], t[2]) && lt(r, t[2], t[3]));
    assert(lt(r, s[i], s[j]) && lt(r, s[j], s[k]) && lt(r, s[k], s[l]));
}

/// Sorts `arr` by GrailSort: short slices by insertion; otherwise gathers
/// distinct items at the front as keys (and as a buffer, when there are
/// enough), sorts the rest into runs and merges the runs pairwise block by
/// block, and at the end sorts the keys and merges them in. With fewer than
/// 4 distinct items it falls back on a merge sort by rotations.
pub(crate) fn grail_common_sort<T, F>(arr: &mut [T], cmp: &F, Ghost(r): Ghost<spec_fn(T, T) -> Ordering>)
    where
        F: Fn(&T, &T) -> Ordering,
    requires
        compares_by(*cmp, r),
        old(arr)@.len() <= isize::MAX,
    ensures
        final(arr)@.len() == old(arr)@.len(),
        final(arr)@.to_multiset() == old(arr)@.to_multiset(),
        old(arr)@.len() <= 16 ==> forall|q: spec_fn(T, T) -> Ordering| #[trigger] compares_by(*cmp, q) ==>
            sorted_between(final(arr)@, 0, len_of(old(arr)@), q) && stable_perm(final(arr)@, old(arr)@, q),
        !has_four_classes(old(arr)@, r) ==> sorted_between(final(arr)@, 0, len_of(old(arr)@), r)
            && stable_perm(final(arr)@, old(arr)@, r),
{
    let ghost s0 = arr@;
    let len = arr.len();
    if len <= 16 {
        grail_insert_sort(arr, len, cmp, Ghost(r));
        proof {
            assert(arr@.subrange(0, ix(len)) =~= arr@);
            assert(s0.subrange(0, ix(len)) =~= s0);
            assert(compares_by(*cmp, r));
        }
        return;
    }
    let (block_len0, Ghost(el)) = grail_block_len(len);
    let mut block_len = block_len0;
    let mut key_count = (len - 1) / block_len + 1;
    let keys_found = grail_find_keys(arr, len, key_count + block_len, cmp, Ghost(r));
    proof {
        if keys_found >= 4 {
            lemma_four_keys(arr@, s0, r);
        }
    }
    let mut buffer_enabled = true;
    let ghost mut ek: nat = 0;
    if keys_found < key_count + block_len {
        if keys_found < 4 {
            let ghost a1 = arr@;
            grail_lazy_stable_sort(arr, cmp, Ghost(r));
            proof {
                assert(len_of(arr@) == len_of(s0));
                lemma_stable_trans(arr@, a1, s0, r);
            }
            return;
        }
        key_count = block_len;
        proof {
            ek = el;
            vstd::arithmetic::power::lemma_pow0(2);
            lemma_pow2_unfold(1);
            lemma_pow2_unfold(2);
            lemma_pow2_unfold(3);
        }
        while key_count > keys_found
            invariant
                key_count == pow2(ek),
                4 <= keys_found,
                4 <= key_count <= block_len0,
                ek >= 2,
                pow2(2) == 4,
            decreases key_count,
        {
            proof {
                lemma_pow2_unfold(ek);
                if ek == 2 {
                    assert(false);
                }
                if pred(ek) > 2 {
                    lemma_pow2_strictly_increases(2, pred(ek));
                }
            }
            key_count = key_count / 2;
            proof {
                ek = pred(ek);
            }
        }
        buffer_enabled = false;
        block_len = 0;
    }
    let dist = block_len + key_count;
    let mut build_len = if buffer_enabled { block_len } else { key_count };
    let ghost mut eb: nat = if buffer_enabled { el } else { ek };
    let d = len - dist;
    grail_build_blocks(arr, dist, d, build_len, Ghost(eb), cmp, Ghost(r));
    while d > 0 && build_len <= (d - 1) / 2
        invariant
            compares_by(*cmp, r),
            arr@.len() == s0.len(),
            len == s0.len(),
            len <= isize::MAX,
            arr@.to_multiset() == s0.to_multiset(),
            dist + d == len,
            build_len == pow2(eb),
            buffer_enabled ==> {
                &&& block_len == block_len0
                &&& key_count == (len - 1) / ix(block_len) + 1
                &&& dist == block_len + key_count
                &&& build_len >= block_len >= 1
            },
            !buffer_enabled ==> {
                &&& key_count == pow2(ek)
                &&& 4 <= key_count <= keys_found
                &&& block_len == 0
                &&& dist == key_count
                &&& build_len >= key_count
            },
        decreases d - build_len,
    {
        build_len = build_len * 2;
        proof {
            lemma_pow2_unfold(eb + 1);
            eb = eb + 1;
        }
        let (reg_block_len, build_buf_enabled) = grail_block_params(block_len, buffer_enabled, key_count, keys_found, build_len, Ghost(ek), Ghost(eb));
        proof {
            if buffer_enabled {
                lemma_fit_buffered(ix(len), ix(dist), ix(block_len), ix(key_count), ix(build_len));
            } else {
                assert(blocks_fit(ix(d), ix(build_len), ix(reg_block_len), ix(key_count)));
            }
        }
        grail_combine_blocks(arr, key_count, dist, d, build_len, reg_block_len, build_buf_enabled, cmp, Ghost(r));
    }
    grail_insert_sort(arr, dist, cmp, Ghost(r));
    grail_merge_without_buffer(arr, 0, dist, d, cmp, Ghost(r));
}

} // verus!
