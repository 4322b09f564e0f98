//! A segment tree over a fixed array of `i32` values with lazy propagation:
//! range assignment and range sum, both logarithmic in the array length.

pub mod layout;
pub mod node;
pub mod segtree;
pub mod sums;
