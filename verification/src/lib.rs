//! Approximate solvers for the Euclidean traveling-salesman problem.
//!
//! Cities are points with integer coordinates; all cost comparisons use the
//! Euclidean distance truncated to an integer.  The crate offers a
//! greedy-edge constructor, a nearest-neighbor constructor, a
//! nearest-insertion constructor, and a randomized 2-opt improver, together
//! with the union-find structure that the greedy constructor uses to avoid
//! premature sub-cycles.

pub mod city;
pub mod common;
pub mod greedy;
pub mod nearest_insertion;
pub mod nearest_neighbor;
pub mod tour;
pub mod two_opt;
pub mod unionfind;
