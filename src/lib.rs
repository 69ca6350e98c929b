//! Lower- and upper-bound searches over ordered collections.
//!
//! `LowerBound` finds the first position whose element is not less than a
//! query, `UpperBound` the first whose element is greater. Both come in three
//! forms (a value, a comparator, a key projection) and are implemented for
//! slices and vectors (binary search), double-ended queues (their front
//! segment), ordered sets and maps, and the max-heap of this crate (scans).
//! A found position is below the number of elements searched; not-found
//! carries the append position.

pub mod boundary;
pub mod deque;
pub mod heap;
pub mod laws;
pub mod ordered;
pub mod search;
pub mod slice;

pub use heap::Heap;
pub use search::{LowerBound, UpperBound};
