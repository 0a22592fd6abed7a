//! Non-overlapping sets of inclusive `usize` ranges, kept in a fixed-capacity
//! array with no heap allocation. Useful as the bookkeeping primitive beneath
//! a physical-memory allocator or a similar resource tracker.
//!
//! Insertion merges the new range with every entry it overlaps or touches;
//! removal trims, deletes or splits the entries it overlaps. Every operation
//! keeps the entries sorted, non-overlapping and non-touching, and every
//! operation validates before it mutates: a failing call returns its error
//! with the set unchanged.

pub mod laws;
pub mod model;
pub mod range;
pub mod set;

pub use crate::range::Error;
pub use crate::range::Range;
pub use crate::set::RangeSet;
