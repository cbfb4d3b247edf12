//! An array-backed binary max-heap for `i64` keys.
//!
//! The heap keeps its elements in a growable vector interpreted as a
//! complete binary tree: the parent of the element at index `i` (for
//! `i > 0`) sits at index `(i - 1) / 2`, and the children of index `i`
//! sit at `2 * i + 1` and `2 * i + 2`.  Every operation maintains the
//! max-heap ordering: no element is greater than its parent.

pub mod heap;

pub use crate::heap::BinaryHeap;
pub use crate::heap::heap_ordered;
pub use crate::heap::sorted_desc;
pub use crate::heap::sort;
pub use crate::heap::in_subtree;
pub use crate::heap::parent_index;
pub use crate::heap::lemma_root_is_max;
pub use crate::heap::lemma_extraction_order;
pub use crate::heap::lemma_peek_deterministic;
