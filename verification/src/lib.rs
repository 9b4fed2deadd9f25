//! In-place stable sorting without an allocator: the block merge sort known as
//! WikiSort, and the GrailSort family, with their proofs.
use vstd::prelude::*;

pub mod order;
pub mod ops;
pub mod search;
pub mod iter;
pub mod merge;
pub mod stability;
pub mod runs;
pub mod networks;
pub mod wiki;
pub mod grail;
pub mod grail_blocks;

pub use wiki::wikisort;
pub use grail::{grail_sort, grail_sort_by, grail_sort_with_static_buffer, grail_sort_with_dynamic_buffer, rec_stable_sort};

verus! {

} // verus!
