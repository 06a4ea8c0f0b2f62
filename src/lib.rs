//! Exact travelling-salesman search over cities in the plane.
//!
//! Coordinates and distances are fixed-point integers: one unit of length is
//! `COORD_SCALE` grid steps, and the distance between two cities is the floor
//! of their Euclidean distance measured in grid steps.
//!
//! - `city`: cities and their distance.
//! - `tour`: tours, their lengths, and what makes a tour shortest.
//! - `brute_force`: exhaustive search over the orders of the cities.
//! - `parallel`: the same search cut into chunks for workers, and the merge.
//! - `optimized`: the distance table, branch and bound, and subset dynamic
//!   programming.
//! - `bitmask`: subsets of cities as bit masks, and the subset table's invariants.
//! - `rng`: the seeded number stream and the city generator.
//! - `path_pool`: a bounded store of reusable path buffers.
pub mod city;
pub mod tour;
pub mod brute_force;
pub mod parallel;
pub mod optimized;
pub mod bitmask;
pub mod rng;
pub mod path_pool;
