//! An array-backed segment tree over a caller-supplied monoid: point reads
//! and writes, and range aggregation in logarithmic time.

pub mod monoid;
pub mod monoids;
pub mod segment_tree;
