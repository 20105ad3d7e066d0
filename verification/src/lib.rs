//! Divide-and-conquer merge of two ascending, duplicate-free sequences.
//!
//! The engine walks two sorted inputs with binary search instead of a linear
//! scan, reporting each element through policy callbacks (`from_a`, `from_b`,
//! `collision`) in ascending key order.  A short-circuit variant lets a policy
//! abort the traversal as soon as its answer is determined.

pub mod binary_merge;
pub mod iterators;
pub mod log_ops;
pub mod set_ops;
