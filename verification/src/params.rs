//! The standard values of the settings. Probabilities and shares are given
//! in thousandths.

use vstd::prelude::*;

verus! {

/// The denominator of every probability: they are given in thousandths.
pub const PER_MILLE: u32 = 1000;

/// The size of the population.
pub const POPULATION_SIZE: usize = 150;

/// The number of generations of a run, and the number of simulations that an
/// iterated greedy search on its own is allowed.
pub const ITERATIONS: usize = 180;

/// The number of best chromosomes that go on as they are.
pub const ELITISM: usize = 2;

/// Whether offspring are improved by local search.
pub const LOCAL_SEARCH: bool = false;

/// How often the better candidate is kept where a choice is left to chance.
pub const KEEP_BEST: u32 = 800;

/// The number of candidates of a tournament.
pub const K_TOURNAMENT: usize = 2;

/// How often a pair is crossed.
pub const XOVER_PROB: u32 = 500;

/// The number of generations without improvement after which the worse
/// part of the population is replaced.
pub const NON_IMPROVING_ITERATIONS: usize = 100;

/// The share of the population that a replacement keeps.
pub const ALLWAYS_KEEP: u32 = 1000;

/// The approximate number of simulations of a local search.
pub const APPROX_CALC: usize = 300;

/// How far the bandit moves a value towards a reward.
pub const LEARNING_RATE: u32 = 200;

/// How often the bandit draws an operator at random.
pub const EPSILON: u32 = 250;

/// How often a chromosome is mutated.
pub const MUTATION_PROB: u32 = 0;

/// A reversal turns round one in `REVERSAL_PERCENT` of the jobs.
pub const REVERSAL_PERCENT: usize = 10;

/// Whether survivors are chosen by crowding.
pub const PERFORM_CROWDING: bool = false;

/// The number of neighbours that crowding looks at in steady state.
pub const K_NEAREST: usize = 10;

} // verus!
