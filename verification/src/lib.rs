//! K-way merging of sorted sources: a lazy merger that always yields the
//! least buffered head, ties going to the source that was listed first.
//!
//! `merge` says on plain sequences what the merged output is, `laws` proves
//! what holds of it, and `collate` holds the merger itself, whose pulls are
//! proved to follow that description.

pub mod collate;
mod heap;
pub mod laws;
pub mod merge;
pub mod order;

pub use crate::collate::{pending, pulled, CollatingIterator, Slot};
pub use crate::merge::{merged, non_decreasing, trace};
pub use crate::order::{equivalent, le, lt, precedes, total_order};
