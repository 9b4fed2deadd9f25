//! Moving items inside a slice: swapping, reversing, swapping blocks and
//! rotating a range.
use vstd::prelude::*;
use core::ops::Range;

verus! {

broadcast use vstd::seq_lib::group_to_multiset_ensures;

/// The number of positions in `range`, zero where it is empty or reversed.
pub open spec fn span(range: Range<usize>) -> int {
    if range.start < range.end { range.end - range.start } else { 0 }
}

/// `s` with the items at `i` and `j` exchanged.
pub open spec fn swapped<T>(s: Seq<T>, i: int, j: int) -> Seq<T> {
    s.update(i, s[j]).update(j, s[i])
}

/// `s` with the positions `lo..hi` read backwards.
pub open spec fn reversed_range<T>(s: Seq<T>, lo: int, hi: int) -> Seq<T> {
    Seq::new(s.len(), |k: int| if lo <= k < hi { s[lo + hi - 1 - k] } else { s[k] })
}

/// `s` with the blocks `lo..lo + amount` and `lo + amount..hi` exchanged.
pub open spec fn rotated_range<T>(s: Seq<T>, amount: int, lo: int, hi: int) -> Seq<T> {
    Seq::new(
        s.len(),
        |k: int|
            if lo <= k < hi - amount {
                s[k + amount]
            } else if hi - amount <= k < hi {
                s[k - (hi - lo - amount)]
            } else {
                s[k]
            },
    )
}

/// `s` with the blocks of `len` items at `p` and `q` exchanged.
pub open spec fn blocks_swapped<T>(s: Seq<T>, p: int, q: int, len: int) -> Seq<T> {
    Seq::new(
        s.len(),
        |k: int|
            if q <= k < q + len {
                s[k - q + p]
            } else if p <= k < p + len {
                s[k - p + q]
            } else {
                s[k]
            },
    )
}

/// `s` after exchanging, one pair after the other, the items at `p + i` and
/// `q + i` for each `i` below `len`.
pub open spec fn pairwise_swapped<T>(s: Seq<T>, p: int, q: int, len: nat) -> Seq<T>
    decreases len,
{
    if len == 0 {
        s
    } else {
        swapped(pairwise_swapped(s, p, q, (len - 1) as nat), p + len - 1, q + len - 1)
    }
}

/// Exchanging pair after pair from `p` and a later `q` moves the items from
/// `q` to `p`, whether or not the two blocks overlap.
pub proof fn lemma_pairwise_moves_down<T>(s: Seq<T>, p: int, q: int, len: nat)
    requires
        0 <= p < q,
        q + len <= s.len(),
    ensures
        pairwise_swapped(s, p, q, len).len() == s.len(),
        forall|i: int| 0 <= i < len ==> #[trigger] pairwise_swapped(s, p, q, len)[p + i] == s[q + i],
        forall|k: int| 0 <= k < s.len() && k >= q + len ==> #[trigger] pairwise_swapped(s, p, q, len)[k] == s[k],
        forall|k: int| 0 <= k < p ==> #[trigger] pairwise_swapped(s, p, q, len)[k] == s[k],
    decreases len,
{
    if len > 0 {
        let m = (len - 1) as nat;
        lemma_pairwise_moves_down(s, p, q, m);
        let prev = pairwise_swapped(s, p, q, m);
        assert(prev[q + m] == s[q + m]);
    }
}

pub proof fn lemma_swapped_multiset<T>(s: Seq<T>, i: int, j: int)
    requires
        0 <= i < s.len(),
        0 <= j < s.len(),
    ensures
        swapped(s, i, j).to_multiset() =~= s.to_multiset(),
        swapped(s, i, j).len() == s.len(),
{
    broadcast use vstd::multiset::group_multiset_axioms;
    let t = s.update(i, s[j]);
    assert(t.to_multiset() == s.to_multiset().insert(s[j]).remove(s[i]));
    assert(t.update(j, s[i]).to_multiset() == t.to_multiset().insert(s[i]).remove(t[j]));
}

/// The length of a range as `Range::len` counts it.
pub(crate) fn range_len(range: &Range<usize>) -> (n: usize)
    ensures
        n == span(*range),
{
    if range.start < range.end {
        range.end - range.start
    } else {
        0
    }
}

/// Exchanges two items of a slice (`<[T]>::swap`). Trusted: the slice
/// afterwards holds the item that was at `j` at `i` and the one that was at
/// `i` at `j`, and nothing else changes.
#[verifier::external_body]
pub(crate) fn swap_items<T>(array: &mut [T], i: usize, j: usize)
    requires
        i < old(array)@.len(),
        j < old(array)@.len(),
    ensures
        final(array)@ == swapped(old(array)@, i as int, j as int),
{
    array.swap(i, j)
}

/// Reverses the items of `range`.
pub(crate) fn reverse<T>(array: &mut [T], range: Range<usize>)
    requires
        range.start >= range.end || range.end <= old(array)@.len(),
    ensures
        final(array)@ == reversed_range(old(array)@, range.start as int, range.end as int),
        final(array)@.to_multiset() == old(array)@.to_multiset(),
{
    let ghost s0 = array@;
    let n = range_len(&range);
    let half = n >> 1;
    assert(half == n / 2) by (bit_vector)
        requires half == n >> 1;
    let mut index: usize = 0;
    while index < half
        invariant
            n == span(range),
            half == n / 2,
            index <= half,
            range.start >= range.end || range.end <= s0.len(),
            array@.len() == s0.len(),
            array@.to_multiset() == s0.to_multiset(),
            forall|k: int| 0 <= k < array@.len() ==> #[trigger] array@[k] == if (range.start <= k < range.start + index
                || range.end - index <= k < range.end) {
                s0[range.start + range.end - 1 - k]
            } else {
                s0[k]
            },
        decreases half - index,
    {
        proof {
            lemma_swapped_multiset(array@, range.start + index, range.end - index - 1);
        }
        swap_items(array, range.start + index, range.end - index - 1);
        index += 1;
    }
    assert(array@ =~= reversed_range(s0, range.start as int, range.end as int));
}

/// Exchanges, item by item, the blocks of `block_size` items at `start1` and
/// `start2`. Blocks that do not overlap (or coincide) are exchanged whole.
pub(crate) fn block_swap<T>(array: &mut [T], start1: usize, start2: usize, block_size: usize)
    requires
        start1 + block_size <= old(array)@.len(),
        start2 + block_size <= old(array)@.len(),
    ensures
        final(array)@.len() == old(array)@.len(),
        final(array)@.to_multiset() == old(array)@.to_multiset(),
        forall|k: int| 0 <= k < old(array)@.len() && !(start1 <= k < start1 + block_size)
            && !(start2 <= k < start2 + block_size) ==> #[trigger] final(array)@[k] == old(array)@[k],
        final(array)@ == pairwise_swapped(old(array)@, start1 as int, start2 as int, block_size as nat),
        start1 + block_size <= start2 || start2 + block_size <= start1 || start1 == start2
            ==> final(array)@ == blocks_swapped(old(array)@, start1 as int, start2 as int, block_size as int),
{
    let ghost s0 = array@;
    let ghost apart = start1 + block_size <= start2 || start2 + block_size <= start1 || start1 == start2;
    let len = array.len();
    let mut index: usize = 0;
    while index < block_size
        invariant
            len == s0.len(),
            start1 + block_size <= s0.len(),
            start2 + block_size <= s0.len(),
            apart == (start1 + block_size <= start2 || start2 + block_size <= start1 || start1 == start2),
            index <= block_size,
            array@.len() == s0.len(),
            array@.to_multiset() == s0.to_multiset(),
            forall|k: int| 0 <= k < s0.len() && !(start1 <= k < start1 + block_size)
                && !(start2 <= k < start2 + block_size) ==> #[trigger] array@[k] == s0[k],
            apart ==> array@ == blocks_swapped(s0, start1 as int, start2 as int, index as int),
            array@ == pairwise_swapped(s0, start1 as int, start2 as int, index as nat),
        decreases block_size - index,
    {
        proof {
            lemma_swapped_multiset(array@, start1 + index, start2 + index);
        }
        swap_items(array, start1 + index, start2 + index);
        index += 1;
        proof {
            if apart {
                assert(array@ =~= blocks_swapped(s0, start1 as int, start2 as int, index as int));
            }
        }
    }
}

/// Exchanges the first `amount` items of `range` with the rest of it, by
/// reversing the two parts and then the whole. An `amount` beyond the range's
/// length reverses `range.start..range.start + amount` and then the range.
pub(crate) fn rotate<T>(array: &mut [T], amount: usize, range: Range<usize>)
    requires
        range.start >= range.end || (range.end <= old(array)@.len() && range.start + amount <= old(array)@.len()),
    ensures
        final(array)@.len() == old(array)@.len(),
        final(array)@.to_multiset() == old(array)@.to_multiset(),
        range.start >= range.end ==> final(array)@ == old(array)@,
        range.start < range.end && amount <= range.end - range.start
            ==> final(array)@ == rotated_range(old(array)@, amount as int, range.start as int, range.end as int),
        range.start < range.end && amount > range.end - range.start
            ==> final(array)@ == reversed_range(
                reversed_range(old(array)@, range.start as int, range.start + amount),
                range.start as int,
                range.end as int,
            ),
{
    if range_len(&range) == 0 {
        return;
    }
    let ghost s0 = array@;
    let _n = array.len();
    let start = range.start;
    let end = range.end;
    let split = range.start + amount;
    let range1 = range.start..split;
    let range2 = split..range.end;

    reverse(array, range1);
    let ghost s1 = array@;
    reverse(array, range2);
    let ghost s2 = array@;
    reverse(array, range);
    proof {
        if amount <= end - start {
            assert(array@ =~= rotated_range(s0, amount as int, start as int, end as int));
        } else {
            assert(s2 == s1);
        }
    }
}

} // verus!

verus! {

/// A position as a mathematical integer.
pub open spec fn ix(i: usize) -> int {
    i as int
}

/// A natural number as a mathematical integer.
pub open spec fn int_of(n: nat) -> int {
    n as int
}

/// The length of a sequence as a mathematical integer.
pub open spec fn len_of<T>(s: Seq<T>) -> int {
    s.len() as int
}

/// `n - 1` as a natural number (0 for 0).
pub open spec fn pred(n: nat) -> nat {
    if n == 0 { 0 } else { (n - 1) as nat }
}

/// A position or a count as a natural number.
pub open spec fn nat_of(i: usize) -> nat {
    i as nat
}

/// A nonnegative integer as a natural number (0 for a negative one).
pub open spec fn nat_from(i: int) -> nat {
    if i < 0 { 0 } else { i as nat }
}

} // verus!
