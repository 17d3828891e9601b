//! Scheduling of hybrid flow shops: a simulator that turns a job permutation
//! into a schedule and its makespan, and the search procedures built on it.

pub mod args;
pub mod best_insertion;
pub mod chromosome;
pub mod crossover;
pub mod crowding;
pub mod ga;
pub mod gch;
pub mod horizon;
pub mod instance;
pub mod iterated_greedy;
pub mod local_search;
pub mod makespan;
pub mod mddr;
pub mod minimum;
pub mod mutation;
pub mod neh;
pub mod neh_permutation;
pub mod options;
pub mod params;
pub mod permutation;
pub mod picking;
pub mod problem;
pub mod random;
pub mod replacement;
pub mod schedule;
pub mod solution;
pub mod solver;
