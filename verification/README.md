# wikisort

In-place stable sorting without an allocator, written in Verus and verified.

The library holds two block merge sorts and the simpler stable sorts built
from their parts:

- `wikisort(array, cmp)`: WikiSort, a bottom-up block merge sort that extracts
  internal buffers of distinct values and merges through them.
- `grail_sort`, `grail_sort_by`, `grail_sort_with_static_buffer`,
  `grail_sort_with_dynamic_buffer`: GrailSort, which gathers distinct keys at
  the front, builds sorted runs and combines them block by block.
- `rec_stable_sort`: a bottom-up merge sort whose merges split both runs
  around a middle item and recurse.

Every function is verified free of panics and overflow, and every sort
returns a reordering of its input. `rec_stable_sort` is proven to return the
stable sorted order. `wikisort` is proven to for fewer than 8 items (its
sorting networks), and the GrailSort functions for at most 16 items, or at
most three distinct values (under `Ord`). Larger inputs are covered by the
tests only. Contracts on a comparator `cmp` speak of every total preorder `r`
with `compares_by(cmp, r)`, so a caller can use them with its own order. The
stable sorted order is proven unique, so these sorts agree wherever their
results are proven.

## Layout

- `src/order.rs`: comparators as total preorders; the order of `Ord::cmp`.
- `src/stability.rs`: stable reorderings, and the uniqueness of the stable
  sorted order.
- `src/merge.rs`: the stable merge of two sequences and its laws.
- `src/runs.rs`: runs of a bottom-up merge sort.
- `src/ops.rs`, `src/search.rs`: swaps, reversals, rotations, binary and
  galloping searches.
- `src/networks.rs`: sorting networks that break ties by original position,
  and why they sort stably.
- `src/iter.rs`, `src/wiki.rs`: WikiSort.
- `src/grail.rs`, `src/grail_blocks.rs`: GrailSort and `rec_stable_sort`.
- `tests/`: tests against the standard library's stable sort.
