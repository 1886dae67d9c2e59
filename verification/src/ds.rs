//! Data structures.

pub mod segtree;

pub mod sorted_vec;

pub mod coord_comp;
