//! Math utilities.

pub mod algebra;

pub mod nt;
