//! Algorithms and data structures for competitive programming.
//!
//! The heart of the crate is the `string` module: a Z-function builder,
//! a doubling rank table over cyclic substrings with an O(1) substring
//! comparator, and suffix-array / LCP-array construction, all with
//! machine-checked contracts.

pub mod order;

pub mod string;

pub mod binsearch;

pub mod ds;

pub mod math;
