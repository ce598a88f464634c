//! Euclidean travelling-salesman solvers that advance one step at a time: an exhaustive
//! search in lexicographic order and simulated annealing, over integer coordinates.

pub mod moves;
pub mod tour;
pub mod perm;
pub mod lehmer;
pub mod random;
pub mod algorithm;
pub mod brute_force;
pub mod annealing;

pub use algorithm::{run, TspAlgorithm, TspState};
pub use annealing::{Annealing, Params};
pub use brute_force::BruteForce;
pub use moves::{shift_left, shift_right, swap};
pub use tour::{dist_sqr, City};
