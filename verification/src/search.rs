//! Binary searches and galloping searches over a sorted range.
use vstd::prelude::*;
use core::cmp::Ordering;
use core::ops::Range;
use crate::order::{le, lt, is_total_preorder, valid_comparator, chosen_order, lemma_order_facts};
use crate::ops::{ix, range_len};

verus! {

/// The items of `s` at `lo..hi` never decrease under `r`.
pub open spec fn sorted_between<T>(s: Seq<T>, lo: int, hi: int, r: spec_fn(T, T) -> Ordering) -> bool {
    forall|i: int, j: int| lo <= i <= j < hi ==> le(r, #[trigger] s[i], #[trigger] s[j])
}

/// What a search for the first position in `lo..hi` whose item is not less
/// than `v` returns: every item before `res` in the range is less than `v`,
/// and no item from `res` on is.
pub open spec fn is_first_position<T>(s: Seq<T>, v: T, lo: int, hi: int, res: int, r: spec_fn(T, T) -> Ordering) -> bool {
    &&& lo <= res <= hi
    &&& forall|i: int| lo <= i < res ==> lt(r, #[trigger] s[i], v)
    &&& forall|i: int| res <= i < hi ==> !lt(r, #[trigger] s[i], v)
}

/// What a search for the first position in `lo..hi` whose item is greater
/// than `v` returns.
pub open spec fn is_last_position<T>(s: Seq<T>, v: T, lo: int, hi: int, res: int, r: spec_fn(T, T) -> Ordering) -> bool {
    &&& lo <= res <= hi
    &&& forall|i: int| lo <= i < res ==> !lt(r, v, #[trigger] s[i])
    &&& forall|i: int| res <= i < hi ==> lt(r, v, #[trigger] s[i])
}

/// The first position in `range` whose item is not less than `value`, for a
/// sorted range. Whatever the range holds, an item just before the result is
/// less than `value` and the item at the result is not.
pub(crate) fn binary_first<T, F>(array: &[T], value: &T, range: Range<usize>, cmp: &F) -> (res: usize)
    where
        F: Fn(&T, &T) -> Ordering,
    requires
        valid_comparator(*cmp),
        range.end >= 1,
        range.start >= range.end || range.end <= array@.len(),
    ensures
        range.start >= range.end ==> res == range.start,
        range.start < range.end ==> {
            &&& range.start <= res <= range.end
            &&& res > range.start ==> lt(chosen_order(*cmp), array@[res - 1], *value)
            &&& res < range.end ==> !lt(chosen_order(*cmp), array@[ix(res)], *value)
            &&& sorted_between(array@, ix(range.start), ix(range.end), chosen_order(*cmp))
                ==> is_first_position(array@, *value, ix(range.start), ix(range.end), ix(res), chosen_order(*cmp))
        },
{
    let ghost r = chosen_order(*cmp);
    let mut start = range.start;
    let mut end = range.end - 1;
    if range.start >= range.end {
        return range.start;
    }
    proof {
        lemma_order_facts(r);
    }
    while start < end
        invariant
            valid_comparator(*cmp),
            r == chosen_order(*cmp),
            is_total_preorder(r),
            range.start <= start <= end,
            end == range.end - 1 || end < range.end - 1,
            range.end <= array@.len(),
            start > range.start ==> lt(r, array@[start - 1], *value),
            end < range.end - 1 ==> !lt(r, array@[ix(end)], *value),
            sorted_between(array@, ix(range.start), ix(range.end), r) ==> {
                &&& forall|i: int| range.start <= i < start ==> lt(r, #[trigger] array@[i], *value)
                &&& forall|i: int| end <= i < range.end - 1 ==> !lt(r, #[trigger] array@[i], *value)
            },
        decreases end - start,
    {
        let diff = end - start;
        let half = diff >> 1;
        assert(half == diff / 2) by (bit_vector)
            requires half == diff >> 1;
        let mid = start + half;
        let o = cmp(&array[mid], value);
        let is_less = match o {
            Ordering::Less => true,
            _ => false,
        };
        if is_less {
            proof {
                if sorted_between(array@, ix(range.start), ix(range.end), r) {
                    assert forall|i: int| range.start <= i <= mid implies lt(r, #[trigger] array@[i], *value) by {
                        lemma_order_facts(r);
                        assert(le(r, array@[i], array@[ix(mid)]));
                        assert(lt(r, array@[ix(mid)], *value));
                    }
                }
            }
            start = mid + 1;
        } else {
            proof {
                if sorted_between(array@, ix(range.start), ix(range.end), r) {
                    assert forall|i: int| mid <= i < range.end - 1 implies !lt(r, #[trigger] array@[i], *value) by {
                        lemma_order_facts(r);
                        assert(le(r, array@[ix(mid)], array@[i]));
                        assert(!lt(r, array@[ix(mid)], *value));
                    }
                }
            }
            end = mid;
        }
    }
    if start == range.end - 1 {
        let o = cmp(&array[start], value);
        match o {
            Ordering::Less => {
                start += 1;
            },
            _ => {},
        }
    }
    start
}

/// The first position in `range` whose item is greater than `value`, for a
/// sorted range. Whatever the range holds, an item just before the result is
/// not greater than `value` and the item at the result is.
pub(crate) fn binary_last<T, F>(array: &[T], value: &T, range: Range<usize>, cmp: &F) -> (res: usize)
    where
        F: Fn(&T, &T) -> Ordering,
    requires
        valid_comparator(*cmp),
        range.end >= 1,
        range.start >= range.end || range.end <= array@.len(),
    ensures
        range.start >= range.end ==> res == range.end,
        range.start < range.end ==> {
            &&& range.start <= res <= range.end
            &&& res > range.start ==> !lt(chosen_order(*cmp), *value, array@[res - 1])
            &&& res < range.end ==> lt(chosen_order(*cmp), *value, array@[ix(res)])
            &&& sorted_between(array@, ix(range.start), ix(range.end), chosen_order(*cmp))
                ==> is_last_position(array@, *value, ix(range.start), ix(range.end), ix(res), chosen_order(*cmp))
        },
{
    let ghost r = chosen_order(*cmp);
    let mut start = range.start;
    let mut end = range.end - 1;
    if range.start >= range.end {
        return range.end;
    }
    proof {
        lemma_order_facts(r);
    }
    while start < end
        invariant
            valid_comparator(*cmp),
            r == chosen_order(*cmp),
            is_total_preorder(r),
            range.start <= start <= end,
            end == range.end - 1 || end < range.end - 1,
            range.end <= array@.len(),
            start > range.start ==> !lt(r, *value, array@[start - 1]),
            end < range.end - 1 ==> lt(r, *value, array@[ix(end)]),
            sorted_between(array@, ix(range.start), ix(range.end), r) ==> {
                &&& forall|i: int| range.start <= i < start ==> !lt(r, *value, #[trigger] array@[i])
                &&& forall|i: int| end <= i < range.end - 1 ==> lt(r, *value, #[trigger] array@[i])
            },
        decreases end - start,
    {
        let diff = end - start;
        let half = diff >> 1;
        assert(half == diff / 2) by (bit_vector)
            requires half == diff >> 1;
        let mid = start + half;
        let o = cmp(value, &array[mid]);
        let is_less = match o {
            Ordering::Less => true,
            _ => false,
        };
        if !is_less {
            proof {
                if sorted_between(array@, ix(range.start), ix(range.end), r) {
                    assert forall|i: int| range.start <= i <= mid implies !lt(r, *value, #[trigger] array@[i]) by {
                        lemma_order_facts(r);
                        assert(le(r, array@[i], array@[ix(mid)]));
                        assert(!lt(r, *value, array@[ix(mid)]));
                    }
                }
            }
            start = mid + 1;
        } else {
            proof {
                if sorted_between(array@, ix(range.start), ix(range.end), r) {
                    assert forall|i: int| mid <= i < range.end - 1 implies lt(r, *value, #[trigger] array@[i]) by {
                        lemma_order_facts(r);
                        assert(le(r, array@[ix(mid)], array@[i]));
                        assert(lt(r, *value, array@[ix(mid)]));
                    }
                }
            }
            end = mid;
        }
    }
    if start == range.end - 1 {
        let o = cmp(value, &array[start]);
        match o {
            Ordering::Less => {},
            _ => {
                start += 1;
            },
        }
    }
    start
}


/// In a sorted range, knowing that the item before `res` is less than `v` and
/// the item at `res` is not places every item of the range.
pub proof fn lemma_first_position<T>(s: Seq<T>, v: T, lo: int, hi: int, res: int, r: spec_fn(T, T) -> Ordering)
    requires
        is_total_preorder(r),
        sorted_between(s, lo, hi, r),
        0 <= lo <= res <= hi <= s.len(),
        res > lo ==> lt(r, s[res - 1], v),
        res < hi ==> !lt(r, s[res], v),
    ensures
        is_first_position(s, v, lo, hi, res, r),
{
    lemma_order_facts(r);
    assert forall|i: int| lo <= i < res implies lt(r, #[trigger] s[i], v) by {
        assert(le(r, s[i], s[res - 1]));
    }
    assert forall|i: int| res <= i < hi implies !lt(r, #[trigger] s[i], v) by {
        assert(le(r, s[res], s[i]));
    }
}

/// In a sorted range, knowing that the item before `res` is not greater than
/// `v` and the item at `res` is places every item of the range.
pub proof fn lemma_last_position<T>(s: Seq<T>, v: T, lo: int, hi: int, res: int, r: spec_fn(T, T) -> Ordering)
    requires
        is_total_preorder(r),
        sorted_between(s, lo, hi, r),
        0 <= lo <= res <= hi <= s.len(),
        res > lo ==> !lt(r, v, s[res - 1]),
        res < hi ==> lt(r, v, s[res]),
    ensures
        is_last_position(s, v, lo, hi, res, r),
{
    lemma_order_facts(r);
    assert forall|i: int| lo <= i < res implies !lt(r, v, #[trigger] s[i]) by {
        assert(le(r, s[i], s[res - 1]));
    }
    assert forall|i: int| res <= i < hi implies lt(r, v, #[trigger] s[i]) by {
        assert(le(r, s[res], s[i]));
    }
}

/// The step by which the galloping searches advance: the range's length
/// divided by the number of distinct values expected, at least one.
pub(crate) fn gallop_step(len: usize, unique: usize) -> (skip: usize)
    requires
        unique > 0,
        len > 0,
    ensures
        skip == if len / unique > 1 { len / unique } else { 1 },
        1 <= skip <= len,
{
    let q = len / unique;
    if q > 1 { q } else { 1 }
}

/// `binary_first` on a sorted range, reached by galloping forward from its
/// start in steps of the range's length over `unique`.
pub(crate) fn find_first_forward<T, F>(array: &[T], value: &T, range: Range<usize>, cmp: &F, unique: usize) -> (res: usize)
    where
        F: Fn(&T, &T) -> Ordering,
    requires
        valid_comparator(*cmp),
        unique > 0,
        range.start >= range.end || range.end <= array@.len(),
    ensures
        range.start >= range.end ==> res == range.start,
        range.start < range.end ==> {
            &&& range.start <= res <= range.end
            &&& res > range.start ==> lt(chosen_order(*cmp), array@[res - 1], *value)
            &&& res < range.end ==> !lt(chosen_order(*cmp), array@[ix(res)], *value)
            &&& sorted_between(array@, ix(range.start), ix(range.end), chosen_order(*cmp))
                ==> is_first_position(array@, *value, ix(range.start), ix(range.end), ix(res), chosen_order(*cmp))
        },
{
    let ghost r = chosen_order(*cmp);
    let len = range_len(&range);
    if len == 0 {
        return range.start;
    }
    let skip = gallop_step(len, unique);
    let mut index = range.start + skip;
    loop
        invariant
            valid_comparator(*cmp),
            r == chosen_order(*cmp),
            range.start < range.end <= array@.len(),
            1 <= skip <= range.end - range.start,
            range.start + skip <= index <= range.end,
            index > range.start + skip ==> lt(r, array@[index - skip - 1], *value),
        ensures
            range.start + skip <= index <= range.end,
            index > range.start + skip ==> lt(r, array@[index - skip - 1], *value),
            index < array@.len() ==> !lt(r, array@[index - 1], *value),
        decreases range.end - index,
    {
        if index >= array.len() {
            break;
        }
        let o = cmp(&array[index - 1], value);
        let is_less = match o {
            Ordering::Less => true,
            _ => false,
        };
        if !is_less {
            break;
        }
        if index >= range.end - skip {
            let res = binary_first(array, value, index..range.end, cmp);
            proof {
                if sorted_between(array@, ix(range.start), ix(range.end), r) {
                    lemma_first_position(array@, *value, ix(range.start), ix(range.end), ix(res), r);
                }
            }
            return res;
        }
        index += skip;
    }
    let res = binary_first(array, value, index - skip..index, cmp);
    proof {
        if sorted_between(array@, ix(range.start), ix(range.end), r) {
            lemma_first_position(array@, *value, ix(range.start), ix(range.end), ix(res), r);
        }
    }
    res
}

/// `binary_last` on a sorted range, reached by galloping forward from its
/// start in steps of the range's length over `unique`.
pub(crate) fn find_last_forward<T, F>(array: &[T], value: &T, range: Range<usize>, cmp: &F, unique: usize) -> (res: usize)
    where
        F: Fn(&T, &T) -> Ordering,
    requires
        valid_comparator(*cmp),
        unique > 0,
        range.start >= range.end || range.end <= array@.len(),
    ensures
        range.start >= range.end ==> res == range.start,
        range.start < range.end ==> {
            &&& range.start <= res <= range.end
            &&& res > range.start ==> !lt(chosen_order(*cmp), *value, array@[res - 1])
            &&& res < range.end ==> lt(chosen_order(*cmp), *value, array@[ix(res)])
            &&& sorted_between(array@, ix(range.start), ix(range.end), chosen_order(*cmp))
                ==> is_last_position(array@, *value, ix(range.start), ix(range.end), ix(res), chosen_order(*cmp))
        },
{
    let ghost r = chosen_order(*cmp);
    let len = range_len(&range);
    if len == 0 {
        return range.start;
    }
    let skip = gallop_step(len, unique);
    let mut index = range.start + skip;
    loop
        invariant
            valid_comparator(*cmp),
            r == chosen_order(*cmp),
            range.start < range.end <= array@.len(),
            1 <= skip <= range.end - range.start,
            range.start + skip <= index <= range.end,
            index > range.start + skip ==> !lt(r, *value, array@[index - skip - 1]),
        ensures
            range.start + skip <= index <= range.end,
            index > range.start + skip ==> !lt(r, *value, array@[index - skip - 1]),
            index < array@.len() ==> lt(r, *value, array@[index - 1]),
        decreases range.end - index,
    {
        if index >= array.len() {
            break;
        }
        let o = cmp(value, &array[index - 1]);
        let is_less = match o {
            Ordering::Less => true,
            _ => false,
        };
        if is_less {
            break;
        }
        if index >= range.end - skip {
            let res = binary_last(array, value, index..range.end, cmp);
            proof {
                if sorted_between(array@, ix(range.start), ix(range.end), r) {
                    lemma_last_position(array@, *value, ix(range.start), ix(range.end), ix(res), r);
                }
            }
            return res;
        }
        index += skip;
    }
    let res = binary_last(array, value, index - skip..index, cmp);
    proof {
        if sorted_between(array@, ix(range.start), ix(range.end), r) {
            lemma_last_position(array@, *value, ix(range.start), ix(range.end), ix(res), r);
        }
    }
    res
}

/// `binary_first` on a sorted range, reached by galloping backward from its
/// end in steps of the range's length over `unique`.
pub(crate) fn find_first_backward<T, F>(array: &[T], value: &T, range: Range<usize>, cmp: &F, unique: usize) -> (res: usize)
    where
        F: Fn(&T, &T) -> Ordering,
    requires
        valid_comparator(*cmp),
        unique > 0,
        range.start >= range.end || range.end <= array@.len(),
    ensures
        range.start >= range.end ==> res == range.start,
        range.start < range.end ==> {
            &&& range.start <= res <= range.end
            &&& res > range.start ==> lt(chosen_order(*cmp), array@[res - 1], *value)
            &&& res < range.end ==> !lt(chosen_order(*cmp), array@[ix(res)], *value)
            &&& sorted_between(array@, ix(range.start), ix(range.end), chosen_order(*cmp))
                ==> is_first_position(array@, *value, ix(range.start), ix(range.end), ix(res), chosen_order(*cmp))
        },
{
    let ghost r = chosen_order(*cmp);
    let len = range_len(&range);
    if len == 0 {
        return range.start;
    }
    let skip = gallop_step(len, unique);
    let mut index = range.end - skip;
    loop
        invariant
            valid_comparator(*cmp),
            r == chosen_order(*cmp),
            range.start < range.end <= array@.len(),
            1 <= skip <= range.end - range.start,
            range.start <= index <= range.end - skip,
            index + skip < range.end ==> !lt(r, array@[index + skip - 1], *value),
        ensures
            range.start <= index <= range.end - skip,
            index + skip < range.end ==> !lt(r, array@[index + skip - 1], *value),
            index > range.start ==> lt(r, array@[index - 1], *value),
        decreases index,
    {
        if index <= range.start {
            break;
        }
        let o = cmp(&array[index - 1], value);
        let is_less = match o {
            Ordering::Less => true,
            _ => false,
        };
        if is_less {
            break;
        }
        if index < range.start + skip {
            let res = binary_first(array, value, range.start..index, cmp);
            proof {
                if sorted_between(array@, ix(range.start), ix(range.end), r) {
                    lemma_first_position(array@, *value, ix(range.start), ix(range.end), ix(res), r);
                }
            }
            return res;
        }
        index -= skip;
    }
    let res = binary_first(array, value, index..index + skip, cmp);
    proof {
        if sorted_between(array@, ix(range.start), ix(range.end), r) {
            lemma_first_position(array@, *value, ix(range.start), ix(range.end), ix(res), r);
        }
    }
    res
}

/// `binary_last` on a sorted range, reached by galloping backward from its
/// end in steps of the range's length over `unique`.
pub(crate) fn find_last_backward<T, F>(array: &[T], value: &T, range: Range<usize>, cmp: &F, unique: usize) -> (res: usize)
    where
        F: Fn(&T, &T) -> Ordering,
    requires
        valid_comparator(*cmp),
        unique > 0,
        range.start >= range.end || range.end <= array@.len(),
    ensures
        range.start >= range.end ==> res == range.start,
        range.start < range.end ==> {
            &&& range.start <= res <= range.end
            &&& res > range.start ==> !lt(chosen_order(*cmp), *value, array@[res - 1])
            &&& res < range.end ==> lt(chosen_order(*cmp), *value, array@[ix(res)])
            &&& sorted_between(array@, ix(range.start), ix(range.end), chosen_order(*cmp))
                ==> is_last_position(array@, *value, ix(range.start), ix(range.end), ix(res), chosen_order(*cmp))
        },
{
    let ghost r = chosen_order(*cmp);
    let len = range_len(&range);
    if len == 0 {
        return range.start;
    }
    let skip = gallop_step(len, unique);
    let mut index = range.end - skip;
    loop
        invariant
            valid_comparator(*cmp),
            r == chosen_order(*cmp),
            range.start < range.end <= array@.len(),
            1 <= skip <= range.end - range.start,
            range.start <= index <= range.end - skip,
            index + skip < range.end ==> lt(r, *value, array@[index + skip - 1]),
        ensures
            range.start <= index <= range.end - skip,
            index + skip < range.end ==> lt(r, *value, array@[index + skip - 1]),
            index > range.start ==> !lt(r, *value, array@[index - 1]),
        decreases index,
    {
        if index <= range.start {
            break;
        }
        let o = cmp(value, &array[index - 1]);
        let is_less = match o {
            Ordering::Less => true,
            _ => false,
        };
        if !is_less {
            break;
        }
        if index < range.start + skip {
            let res = binary_last(array, value, range.start..index, cmp);
            proof {
                if sorted_between(array@, ix(range.start), ix(range.end), r) {
                    lemma_last_position(array@, *value, ix(range.start), ix(range.end), ix(res), r);
                }
            }
            return res;
        }
        index -= skip;
    }
    let res = binary_last(array, value, index..index + skip, cmp);
    proof {
        if sorted_between(array@, ix(range.start), ix(range.end), r) {
            lemma_last_position(array@, *value, ix(range.start), ix(range.end), ix(res), r);
        }
    }
    res
}

} // verus!
