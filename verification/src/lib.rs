//! Tour construction for the Euclidean travelling salesman problem on an
//! integer grid.
//!
//! An instance is a list of [`geometry::Point`]s. A tour is a list of indices
//! into the instance in which every index occurs exactly once; it is read as a
//! cycle, with an edge from the last index back to the first. All lengths are
//! whole numbers of grid units: the length of an edge is its Euclidean length
//! rounded up to the next unit, so costs add up exactly and the laws about
//! them hold without rounding error.

pub mod branch_and_bound;
pub mod brute_force;
pub mod effort;
pub mod geometry;
pub mod heuristics;
pub mod insertion;
pub mod laws;
pub mod nearest;
pub mod permutations;
pub mod ranking;
pub mod tour;
