//! The settings of the genetic algorithm.

use crate::crossover::XTYPE;
use crate::crowding::DTYPE;
use crate::mutation::MTYPE;
use crate::params;
use crate::replacement::RTYPE;
use vstd::prelude::*;

verus! {

/// How the first population is built.
#[derive(Clone, Copy, Debug)]
pub enum Construction {
    /// Random permutations only.
    Random,
    /// This share of the population, in thousandths, is built by the greedy
    /// construction heuristic, the rest are random permutations.
    MDDR(u32),
    /// One chromosome is the NEH schedule, the rest are random permutations.
    NEH,
}

/// The settings of a run. Probabilities and shares are given in
/// thousandths.
#[derive(Clone, Copy, Debug)]
pub struct Options {
    /// Runs through all problem files if true.
    pub run_all: bool,
    /// Runs through all parameter values if true.
    pub all_params: bool,
    /// Runs in steady state if true.
    pub steady_state: bool,
    /// Local search after mutation.
    pub local_search: bool,
    /// Size of the population.
    pub pop_size: usize,
    /// Number of generations of a run.
    pub iterations: usize,
    /// Number of best individuals that go on to the next generation as
    /// they are.
    pub elitism: usize,
    /// Probability that a tournament takes its best candidate.
    pub keep_best: u32,
    /// Number of candidates of a tournament.
    pub k_tournament: usize,
    /// Probability that a pair is crossed.
    pub xover_prob: u32,
    /// Crossover operator.
    pub xover_type: XTYPE,
    /// Learning rate of the bandit.
    pub learning_rate: u32,
    /// Exploration rate of the bandit.
    pub epsilon: u32,
    /// How the first population is built.
    pub construction: Construction,
    /// Probability that an individual is mutated.
    pub mutation_prob: u32,
    /// Mutation operator.
    pub mutation_type: MTYPE,
    /// A reversal turns round one in this many of the jobs.
    pub reversal_percent: usize,
    /// Number of generations without improvement after which the worse part
    /// of the population is replaced.
    pub non_improving_iterations: usize,
    /// Replacement scheme.
    pub rtype: RTYPE,
    /// Share of the population that a replacement keeps.
    pub allways_keep: u32,
    /// Approximate number of simulations of a local search.
    pub approx_calc: usize,
    /// Whether survivors are chosen by crowding.
    pub perform_crowding: bool,
    /// Number of neighbours that crowding looks at in steady state.
    pub k_nearest: usize,
    /// Distance measure of crowding.
    pub distance_metric: DTYPE,
}

impl Default for Options {
    fn default() -> (r: Self)
        ensures
            r == Options::standard(),
            r.usable(),
    {
        Options {
            run_all: false,
            all_params: false,
            steady_state: false,
            local_search: params::LOCAL_SEARCH,
            pop_size: params::POPULATION_SIZE,
            iterations: params::ITERATIONS,
            elitism: params::ELITISM,
            keep_best: params::KEEP_BEST,
            k_tournament: params::K_TOURNAMENT,
            xover_prob: params::XOVER_PROB,
            xover_type: XTYPE::PMX,
            learning_rate: params::LEARNING_RATE,
            epsilon: params::EPSILON,
            construction: Construction::MDDR(200),
            mutation_prob: params::MUTATION_PROB,
            mutation_type: MTYPE::Shift,
            reversal_percent: params::REVERSAL_PERCENT,
            non_improving_iterations: params::NON_IMPROVING_ITERATIONS,
            rtype: RTYPE::GCH,
            allways_keep: params::ALLWAYS_KEEP,
            approx_calc: params::APPROX_CALC,
            perform_crowding: params::PERFORM_CROWDING,
            k_nearest: params::K_NEAREST,
            distance_metric: DTYPE::ExactMatch,
        }
    }
}

impl Options {
    /// The standard settings: a population of 150 with an elite of 2,
    /// tournaments of 2 that take the best 4 times out of 5, partially
    /// mapped crossover of every second pair, no mutation, a fifth of the
    /// first population built greedily, and no chromosome ever replaced.
    pub open spec fn standard() -> Options {
        Options {
            run_all: false,
            all_params: false,
            steady_state: false,
            local_search: false,
            pop_size: 150,
            iterations: 180,
            elitism: 2,
            keep_best: 800,
            k_tournament: 2,
            xover_prob: 500,
            xover_type: XTYPE::PMX,
            learning_rate: 200,
            epsilon: 250,
            construction: Construction::MDDR(200),
            mutation_prob: 0,
            mutation_type: MTYPE::Shift,
            reversal_percent: 10,
            non_improving_iterations: 100,
            rtype: RTYPE::GCH,
            allways_keep: 1000,
            approx_calc: 300,
            perform_crowding: false,
            k_nearest: 10,
            distance_metric: DTYPE::ExactMatch,
        }
    }

    /// The settings can be run: probabilities and shares are at most one,
    /// the population holds more than the elite and fits the counters,
    /// tournaments are not empty, and, where crowding is used in steady
    /// state, neither is its neighbourhood.
    pub open spec fn usable(self) -> bool {
        &&& self.keep_best <= params::PER_MILLE
        &&& self.xover_prob <= params::PER_MILLE
        &&& self.mutation_prob <= params::PER_MILLE
        &&& self.learning_rate <= params::PER_MILLE
        &&& self.epsilon <= params::PER_MILLE
        &&& self.allways_keep <= params::PER_MILLE
        &&& (self.construction matches Construction::MDDR(share) ==> share <= params::PER_MILLE)
        &&& self.elitism < self.pop_size
        &&& self.pop_size <= u32::MAX
        &&& self.k_tournament >= 1
        &&& self.perform_crowding && self.steady_state ==> self.neighbourly()
        &&& self.approx_calc <= u32::MAX
    }

    /// The neighbourhood that crowding looks at in steady state is not
    /// empty and not larger than the population.
    pub open spec fn neighbourly(self) -> bool {
        1 <= self.k_nearest <= self.pop_size
    }

    /// Tells whether the settings can be run.
    pub fn check(&self) -> (r: bool)
        ensures
            r == self.usable(),
    {
        let share_ok: bool = match self.construction {
            Construction::MDDR(share) => share <= params::PER_MILLE,
            _ => true,
        };
        self.keep_best <= params::PER_MILLE && self.xover_prob <= params::PER_MILLE
            && self.mutation_prob <= params::PER_MILLE && self.learning_rate <= params::PER_MILLE
            && self.epsilon <= params::PER_MILLE && self.allways_keep <= params::PER_MILLE
            && share_ok && self.elitism < self.pop_size && self.pop_size <= 0xffff_ffff
            && self.k_tournament >= 1 && (!(self.perform_crowding && self.steady_state) || (1
            <= self.k_nearest && self.k_nearest <= self.pop_size)) && self.approx_calc
            <= 0xffff_ffff
    }
}

} // verus!
