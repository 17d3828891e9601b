//! The genetic algorithm: a population of job orders is bred generation by
//! generation.

pub mod population;
pub mod steady_state;

use crate::chromosome::Chromosome;
use crate::crossover::bandit::Qlearning;
use crate::crossover::{bred_jobs, crossover_at, fresh, offspring, takes_blocks, XTYPE};
use crate::crowding::{
    lemma_survived_copies, survived, survived_by_lot, survivor_selection, survivors_by_lot, DTYPE,
};
use crate::ga::population::{
    evaluated_from, extends, lemma_lowest, lowest, ordered_from,
    all_bred, all_evaluated, ascending_makespans, best_index, check_evaluated, copies_of,
    evaluate_all, is_copy_of,
    lemma_same_members,
    is_lowest,
    lemma_not_worse_chain, lemma_not_worse_reordered, lemma_reordered_evaluated, makespans,
    not_worse, settle_tournament, sort_population,
};
use crate::gch::{construct, is_greedy_schedule};
use crate::instance::{Instance, InstanceView};
use crate::local_search::{all_improved, is_searched, ls_ig};
use crate::mutation::{all_mutants, is_mutant, mutants_or_same};
use crate::makespan::Makespan;
use crate::neh::{is_neh_schedule, NEH};
use crate::options::{Construction, Options};
use crate::params::PER_MILLE;
use crate::permutation::{is_permutation, lemma_partial_length};
use crate::random::{chance, draw_below};
use crate::minimum::lemma_first_minimum_is;
use crate::replacement::{kept_count, mutate_by, renewed, replace_by, replaced, RTYPE};
use crate::schedule::makespan_of;
use rand::rngs::StdRng;
use vstd::prelude::*;

verus! {

/// A line of the record of a run: the generation, the best makespan found
/// in it, and the number of simulations run by then.
#[derive(Clone, Copy, Debug, PartialEq, Eq, Structural)]
pub struct Improvement {
    pub iteration: usize,
    pub makespan: u32,
    pub evaluations: u32,
}

/// A run of the genetic algorithm: the population, the pool in which the
/// next generation is bred, the engine, the settings, the random source and
/// the bandit, and the record of the run.
pub struct GA {
    pub instance: Instance,
    pub population: Vec<Chromosome>,
    pub mating_pool: Vec<Chromosome>,
    pub makespan: Makespan,
    pub options: Options,
    pub rng: StdRng,
    pub bandit: Qlearning,
    pub best_makespan: Vec<Improvement>,
    pub iteration: usize,
    pub non_improvement_counter: usize,
}

impl GA {
    /// What a run relies on: a sound engine for the instance, usable
    /// settings, and a population of the set size in which every chromosome
    /// is a permutation that carries its true makespan.
    pub open spec fn well_formed(&self) -> bool {
        &&& self.makespan.instance@.well_formed()
        &&& self.instance@ == self.makespan.instance@
        &&& self.makespan.instance@.jobs >= 2
        &&& takes_blocks(self.options.xover_type) ==> self.makespan.instance@.jobs >= 10
        &&& self.options.local_search ==> self.makespan.instance@.jobs > 2
        &&& self.options.perform_crowding ==> self.makespan.instance@.jobs
            * self.makespan.instance@.jobs <= i32::MAX
        &&& self.options.usable()
        &&& self.population.len() == self.options.pop_size
        &&& all_evaluated(self.population@, self.makespan.instance@)
        &&& self.bandit.well_formed()
    }

    /// Tells whether the state is what a run relies on. Every chromosome of
    /// the population is simulated for it, on an engine of its own.
    pub fn check(&self) -> (r: bool)
        ensures
            r == self.well_formed(),
    {
        if !self.makespan.instance.check() || !self.instance.same_as(&self.makespan.instance) {
            return false;
        }
        let jobs: u32 = self.makespan.instance.jobs;
        let blocks: bool = match self.options.xover_type {
            XTYPE::BCBX => true,
            XTYPE::Random => true,
            XTYPE::QLearning => true,
            _ => false,
        };
        if jobs < 2 || (blocks && jobs < 10) || (self.options.local_search && jobs <= 2) {
            return false;
        }
        if self.options.perform_crowding {
            if jobs > 0xffff {
                assert(jobs * jobs > i32::MAX) by (nonlinear_arith)
                    requires
                        jobs > 0xffff,
                ;
                return false;
            }
            assert(jobs * jobs <= u32::MAX) by (nonlinear_arith)
                requires
                    jobs <= 0xffff,
            ;
            if jobs * jobs > 0x7fff_ffff {
                return false;
            }
        }
        if !self.options.check() || self.population.len() != self.options.pop_size {
            return false;
        }
        check_evaluated(&self.population, &self.makespan.instance) && self.bandit.check()
    }

    /// The run goes on with the same instance and settings.
    pub open spec fn continues(&self, before: &GA) -> bool {
        &&& self.makespan.instance == before.makespan.instance
        &&& self.instance == before.instance
        &&& self.options == before.options
        &&& self.makespan.count >= before.makespan.count
    }

    /// A tournament: chromosomes are drawn at random from the population,
    /// as many as the settings say; mostly the first of them with the
    /// lowest makespan wins, now and then one of them drawn at random.
    /// Returns a copy of the winner.
    pub fn tournament(&mut self) -> (r: Chromosome)
        requires
            old(self).well_formed(),
        ensures
            exists|i: int|
                0 <= i < old(self).population.len() && r@ == (
                #[trigger] old(self).population@[i])@,
            final(self).population == old(self).population,
            final(self).mating_pool == old(self).mating_pool,
            final(self).makespan == old(self).makespan,
            final(self).instance == old(self).instance,
            final(self).options == old(self).options,
            final(self).bandit == old(self).bandit,
            final(self).best_makespan == old(self).best_makespan,
            final(self).iteration == old(self).iteration,
            final(self).non_improvement_counter == old(self).non_improvement_counter,
    {
        let mut candidates: Vec<usize> = Vec::with_capacity(self.options.k_tournament);
        while candidates.len() < self.options.k_tournament
            invariant
                *self == (GA { rng: self.rng, ..*old(self) }),
                self.well_formed(),
                candidates.len() <= self.options.k_tournament,
                forall|j: int|
                    0 <= j < candidates.len() ==> (#[trigger] candidates@[j])
                        < self.population.len(),
            decreases self.options.k_tournament - candidates.len(),
        {
            let drawn = draw_below(&mut self.rng, self.population.len());
            candidates.push(drawn);
        }
        let take_best: bool = chance(&mut self.rng, self.options.keep_best, PER_MILLE);
        let random_pick: usize = if take_best {
            0
        } else {
            draw_below(&mut self.rng, candidates.len())
        };
        let winner = settle_tournament(&self.population, &candidates, take_best, random_pick);
        self.population[winner].clone()
    }

    /// Evaluates the chromosomes of the mating pool that have changed.
    pub fn makespan(&mut self)
        requires
            old(self).well_formed(),
            all_bred(old(self).mating_pool@, old(self).makespan.instance@),
        ensures
            final(self).well_formed(),
            final(self).continues(old(self)),
            all_evaluated(final(self).mating_pool@, old(self).makespan.instance@),
            final(self).mating_pool.len() == old(self).mating_pool.len(),
            forall|i: int|
                0 <= i < old(self).mating_pool.len() ==> (
                #[trigger] final(self).mating_pool@[i]).jobs@ == old(self).mating_pool@[i].jobs@,
            evaluated_from(
                old(self).mating_pool@,
                final(self).mating_pool@,
                old(self).makespan.instance@,
            ),
            final(self).makespan.count >= old(self).makespan.count,
            final(self).population == old(self).population,
            final(self).bandit == old(self).bandit,
            final(self).best_makespan == old(self).best_makespan,
            final(self).iteration == old(self).iteration,
            final(self).non_improvement_counter == old(self).non_improvement_counter,
    {
        evaluate_all(&mut self.mating_pool, &mut self.makespan);
    }
}

/// `c` carries the mark that the crossover of kind `kind` leaves: that of a
/// changed chromosome without makespan, or, where the operator evaluates
/// its children, the true makespan.
pub open spec fn marked_as(kind: XTYPE, c: Chromosome, inst: InstanceView) -> bool {
    match kind {
        XTYPE::SJ2OX => fresh(c),
        XTYPE::SB2OX => fresh(c),
        XTYPE::PMX => fresh(c),
        XTYPE::BCBX => c.evaluated(inst),
        XTYPE::QLearning => c.evaluated(inst),
        XTYPE::Random => fresh(c) || c.evaluated(inst),
    }
}

/// Recombination with the crossover of kind `kind` runs no simulation: the
/// operator evaluates nothing, and without crowding nobody else does.
pub open spec fn unevaluating(kind: XTYPE, crowding: bool) -> bool {
    !crowding && (kind is SJ2OX || kind is SB2OX || kind is PMX)
}

/// `f0` and `f1` are what recombination can put in the place of the pair
/// `p0` and `p1`. Without crowding they are two children that the
/// crossover of kind `kind` breeds from the pair. With crowding they are
/// the winners of the duels between the pair and two such children, which
/// are evaluated for it.
pub open spec fn crossed(
    kind: XTYPE,
    crowding: bool,
    dtype: DTYPE,
    p0: Chromosome,
    p1: Chromosome,
    f0: Chromosome,
    f1: Chromosome,
    inst: InstanceView,
) -> bool {
    if crowding {
        exists|c0: Chromosome, c1: Chromosome|
            {
                &&& offspring(kind, p0.jobs@, p1.jobs@, c0.jobs@, c1.jobs@)
                &&& c0.evaluated(inst)
                &&& c1.evaluated(inst)
                &&& #[trigger] survived(dtype, p0, p1, c0, c1, f0, f1)
            }
    } else {
        &&& offspring(kind, p0.jobs@, p1.jobs@, f0.jobs@, f1.jobs@)
        &&& marked_as(kind, f0, inst)
        &&& marked_as(kind, f1, inst)
    }
}

/// The pair at the places `j` and `j + 1` of `after` is what recombination
/// can put in the place of the pair at these places of `before`.
pub open spec fn crossed_at(
    before: Seq<Chromosome>,
    after: Seq<Chromosome>,
    j: int,
    kind: XTYPE,
    crowding: bool,
    dtype: DTYPE,
    inst: InstanceView,
) -> bool {
    crossed(kind, crowding, dtype, before[j], before[j + 1], after[j], after[j + 1], inst)
}

/// The pair at the places `j` and `j + 1` of `after` is the pair at these
/// places of `before`, or what recombination can put in its place.
pub open spec fn recombined_at(
    before: Seq<Chromosome>,
    after: Seq<Chromosome>,
    j: int,
    kind: XTYPE,
    crowding: bool,
    dtype: DTYPE,
    inst: InstanceView,
) -> bool {
    (after[j] == before[j] && after[j + 1] == before[j + 1]) || crossed_at(
        before,
        after,
        j,
        kind,
        crowding,
        dtype,
        inst,
    )
}

/// Every pair of `after` that begins at an even place is the pair at its
/// places in `before`, or what recombination can put in its place; a last
/// chromosome without partner is as it was.
pub open spec fn recombined(
    before: Seq<Chromosome>,
    after: Seq<Chromosome>,
    kind: XTYPE,
    crowding: bool,
    dtype: DTYPE,
    inst: InstanceView,
) -> bool {
    &&& forall|j: int|
        0 <= j && j + 1 < after.len() && j % 2 == 0 ==> #[trigger] recombined_at(
            before,
            after,
            j,
            kind,
            crowding,
            dtype,
            inst,
        )
    &&& after.len() % 2 == 1 ==> after[after.len() - 1] == before[after.len() - 1]
}

/// Every pair of `after` that begins at an even place is what recombination
/// can put in the place of the pair at its places in `before`.
pub open spec fn all_crossed(
    before: Seq<Chromosome>,
    after: Seq<Chromosome>,
    kind: XTYPE,
    crowding: bool,
    dtype: DTYPE,
    inst: InstanceView,
) -> bool {
    forall|j: int|
        0 <= j && j + 1 < after.len() && j % 2 == 0 ==> #[trigger] crossed_at(
            before,
            after,
            j,
            kind,
            crowding,
            dtype,
            inst,
        )
}

/// Breeds two children with the operator that the settings name.
pub fn crossover_by(
    kind: XTYPE,
    bandit: &mut Qlearning,
    p1: &Chromosome,
    p2: &Chromosome,
    makespan: &mut Makespan,
    rng: &mut StdRng,
) -> (r: (Chromosome, Chromosome))
    requires
        old(bandit).well_formed(),
        crate::crossover::crossable(*p1, *p2, *old(makespan)),
        old(makespan).instance@.jobs >= 2,
        takes_blocks(kind) ==> old(makespan).instance@.jobs >= 10,
        p1.makespan.is_some(),
        p2.makespan.is_some(),
    ensures
        final(bandit).well_formed(),
        final(bandit).learning_rate == old(bandit).learning_rate,
        final(bandit).epsilon == old(bandit).epsilon,
        !(kind is QLearning) ==> *final(bandit) == *old(bandit),
        kind is SJ2OX || kind is SB2OX || kind is PMX ==> *final(makespan) == *old(makespan),
        crate::crossover::bred(r.0, old(makespan).instance@),
        crate::crossover::bred(r.1, old(makespan).instance@),
        offspring(kind, p1.jobs@, p2.jobs@, r.0.jobs@, r.1.jobs@),
        marked_as(kind, r.0, old(makespan).instance@),
        marked_as(kind, r.1, old(makespan).instance@),
        final(makespan).instance == old(makespan).instance,
        final(makespan).count >= old(makespan).count,
{
    match kind {
        XTYPE::SJ2OX => crossover_at(0, p1, p2, None, makespan, rng),
        XTYPE::BCBX => crossover_at(1, p1, p2, None, makespan, rng),
        XTYPE::SB2OX => crossover_at(2, p1, p2, None, makespan, rng),
        XTYPE::PMX => crossover_at(3, p1, p2, None, makespan, rng),
        XTYPE::Random => {
            let operator = draw_below(rng, 4);
            let r = crossover_at(operator, p1, p2, None, makespan, rng);
            assert(bred_jobs(operator as int, None, p1.jobs@, p2.jobs@, r.0.jobs@, r.1.jobs@));
            r
        },
        XTYPE::QLearning => bandit.crossover(p1, p2, None, makespan, rng),
    }
}

impl GA {
    /// Selection: the mating pool is filled anew with the winners of as
    /// many tournaments as the population has members beyond the elite.
    pub fn select(&mut self)
        requires
            old(self).well_formed(),
        ensures
            final(self).well_formed(),
            final(self).continues(old(self)),
            final(self).mating_pool.len() == old(self).options.pop_size - old(self).options.elitism,
            all_evaluated(final(self).mating_pool@, old(self).makespan.instance@),
            copies_of(final(self).mating_pool@, old(self).population@),
            final(self).population == old(self).population,
            final(self).makespan == old(self).makespan,
            final(self).bandit == old(self).bandit,
            final(self).best_makespan == old(self).best_makespan,
            final(self).iteration == old(self).iteration,
            final(self).non_improvement_counter == old(self).non_improvement_counter,
    {
        let ghost inst = self.makespan.instance@;
        self.mating_pool.clear();
        let wanted: usize = self.options.pop_size - self.options.elitism;
        while self.mating_pool.len() < wanted
            invariant
                self.well_formed(),
                self.continues(old(self)),
                inst == self.makespan.instance@,
                wanted == self.options.pop_size - self.options.elitism,
                self.mating_pool.len() <= wanted,
                all_evaluated(self.mating_pool@, inst),
                copies_of(self.mating_pool@, self.population@),
                self.population == old(self).population,
                self.makespan == old(self).makespan,
                self.bandit == old(self).bandit,
                self.best_makespan == old(self).best_makespan,
                self.iteration == old(self).iteration,
                self.non_improvement_counter == old(self).non_improvement_counter,
            decreases wanted - self.mating_pool.len(),
        {
            let ghost pool = self.mating_pool@;
            let winner = self.tournament();
            self.mating_pool.push(winner);
            assert forall|i: int| 0 <= i < self.mating_pool.len() implies is_permutation(
                (#[trigger] self.mating_pool@[i]).jobs@,
                inst.jobs,
            ) && self.mating_pool@[i].evaluated(inst) by {
                if i < pool.len() {
                    assert(self.mating_pool@[i] == pool[i]);
                }
            }
            assert forall|i: int| 0 <= i < self.mating_pool.len() implies is_copy_of(
                #[trigger] self.mating_pool@[i],
                self.population@,
            ) by {
                if i < pool.len() {
                    assert(self.mating_pool@[i] == pool[i]);
                    assert(is_copy_of(pool[i], self.population@));
                }
            }
        }
    }

    /// Recombination: each pair of neighbours in the mating pool, taken
    /// from the front, is, with the probability that the settings give,
    /// replaced by its two children, or, with crowding, by the winners of
    /// the duels between the parents and the children. The other pairs, and
    /// a last chromosome without partner, stay as they are.
    pub fn recombine(&mut self)
        requires
            old(self).well_formed(),
            all_evaluated(old(self).mating_pool@, old(self).makespan.instance@),
        ensures
            final(self).well_formed(),
            final(self).continues(old(self)),
            final(self).mating_pool.len() == old(self).mating_pool.len(),
            all_bred(final(self).mating_pool@, old(self).makespan.instance@),
            recombined(
                old(self).mating_pool@,
                final(self).mating_pool@,
                old(self).options.xover_type,
                old(self).options.perform_crowding,
                old(self).options.distance_metric,
                old(self).makespan.instance@,
            ),
            old(self).options.xover_prob == PER_MILLE ==> all_crossed(
                old(self).mating_pool@,
                final(self).mating_pool@,
                old(self).options.xover_type,
                old(self).options.perform_crowding,
                old(self).options.distance_metric,
                old(self).makespan.instance@,
            ),
            old(self).options.xover_prob == 0 ==> final(self).mating_pool@
                == old(self).mating_pool@ && final(self).makespan == old(self).makespan,
            old(self).options.xover_prob == 0 || !(old(self).options.xover_type is QLearning)
                ==> final(self).bandit == old(self).bandit,
            unevaluating(old(self).options.xover_type, old(self).options.perform_crowding)
                ==> final(self).makespan == old(self).makespan,
            final(self).population == old(self).population,
            final(self).best_makespan == old(self).best_makespan,
            final(self).iteration == old(self).iteration,
            final(self).non_improvement_counter == old(self).non_improvement_counter,
    {
        let ghost inst = self.makespan.instance@;
        let ghost before = self.mating_pool@;
        let ghost kind = self.options.xover_type;
        let ghost crowding = self.options.perform_crowding;
        let ghost dtype = self.options.distance_metric;
        let mut j: usize = 0;
        while j < self.mating_pool.len() && self.mating_pool.len() - j >= 2
            invariant
                j <= self.mating_pool.len(),
                j % 2 == 0,
                self.well_formed(),
                self.continues(old(self)),
                inst == self.makespan.instance@,
                before == old(self).mating_pool@,
                kind == self.options.xover_type,
                crowding == self.options.perform_crowding,
                dtype == self.options.distance_metric,
                self.mating_pool.len() == old(self).mating_pool.len(),
                all_bred(self.mating_pool@, inst),
                all_evaluated(before, inst),
                forall|i: int|
                    j <= i < self.mating_pool.len() ==> #[trigger] self.mating_pool@[i]
                        == before[i],
                forall|t: int|
                    0 <= t < j && t % 2 == 0 ==> #[trigger] recombined_at(
                        before,
                        self.mating_pool@,
                        t,
                        kind,
                        crowding,
                        dtype,
                        inst,
                    ),
                self.options.xover_prob == PER_MILLE ==> forall|t: int|
                    0 <= t < j && t % 2 == 0 ==> #[trigger] crossed_at(
                        before,
                        self.mating_pool@,
                        t,
                        kind,
                        crowding,
                        dtype,
                        inst,
                    ),
                self.options.xover_prob == 0 ==> self.mating_pool@ == before && self.makespan
                    == old(self).makespan,
                self.options.xover_prob == 0 || !(kind is QLearning) ==> self.bandit
                    == old(self).bandit,
                unevaluating(kind, crowding) ==> self.makespan == old(self).makespan,
                self.population == old(self).population,
                self.best_makespan == old(self).best_makespan,
                self.iteration == old(self).iteration,
                self.non_improvement_counter == old(self).non_improvement_counter,
            decreases self.mating_pool.len() - j,
        {
            let ghost so_far = self.mating_pool@;
            if chance(&mut self.rng, self.options.xover_prob, PER_MILLE) {
                self.cross_pair(j);
            }
            proof {
                let now = self.mating_pool@;
                assert(recombined_at(before, now, j as int, kind, crowding, dtype, inst));
                assert forall|t: int| 0 <= t < j && t % 2 == 0 implies #[trigger] recombined_at(
                    before,
                    now,
                    t,
                    kind,
                    crowding,
                    dtype,
                    inst,
                ) by {
                    assert(now[t] == so_far[t]);
                    assert(now[t + 1] == so_far[t + 1]);
                    assert(recombined_at(before, so_far, t, kind, crowding, dtype, inst));
                }
                if self.options.xover_prob == PER_MILLE {
                    assert forall|t: int| 0 <= t < j && t % 2 == 0 implies #[trigger] crossed_at(
                        before,
                        now,
                        t,
                        kind,
                        crowding,
                        dtype,
                        inst,
                    ) by {
                        assert(now[t] == so_far[t]);
                        assert(now[t + 1] == so_far[t + 1]);
                        assert(crossed_at(before, so_far, t, kind, crowding, dtype, inst));
                    }
                }
            }
            j += 2;
        }
    }

    /// Breeds the two children of the pair at the places `j` and `j + 1` of
    /// the mating pool and evaluates them. The mating pool stays as it is.
    pub fn pair_children(&mut self, j: usize) -> (r: (Chromosome, Chromosome))
        requires
            old(self).well_formed(),
            j + 1 < old(self).mating_pool.len(),
            all_bred(old(self).mating_pool@, old(self).makespan.instance@),
            old(self).mating_pool@[j as int].evaluated(old(self).makespan.instance@),
            old(self).mating_pool@[j + 1].evaluated(old(self).makespan.instance@),
        ensures
            final(self).well_formed(),
            final(self).continues(old(self)),
            offspring(
                old(self).options.xover_type,
                old(self).mating_pool@[j as int].jobs@,
                old(self).mating_pool@[j + 1].jobs@,
                r.0.jobs@,
                r.1.jobs@,
            ),
            is_permutation(r.0.jobs@, old(self).makespan.instance@.jobs),
            is_permutation(r.1.jobs@, old(self).makespan.instance@.jobs),
            r.0.evaluated(old(self).makespan.instance@),
            r.1.evaluated(old(self).makespan.instance@),
            !(old(self).options.xover_type is QLearning) ==> final(self).bandit
                == old(self).bandit,
            final(self).mating_pool == old(self).mating_pool,
            final(self).population == old(self).population,
            final(self).best_makespan == old(self).best_makespan,
            final(self).iteration == old(self).iteration,
            final(self).non_improvement_counter == old(self).non_improvement_counter,
    {
        let ghost inst = self.makespan.instance@;
        let p0 = self.mating_pool[j].clone();
        let p1 = self.mating_pool[j + 1].clone();
        let (mut c0, mut c1) = crossover_by(
            self.options.xover_type,
            &mut self.bandit,
            &p0,
            &p1,
            &mut self.makespan,
            &mut self.rng,
        );
        proof {
            lemma_partial_length(c0.jobs@, inst.jobs);
        }
        if c0.updated {
            c0.makespan(&mut self.makespan);
        }
        if c1.updated {
            c1.makespan(&mut self.makespan);
        }
        (c0, c1)
    }

    /// Puts in the place of the pair at the places `j` and `j + 1` of the
    /// mating pool the winners of the duels between the pair and its
    /// evaluated children `c0` and `c1`, which lots have decided: this is
    /// the pair step of probabilistic crowding, for which the caller draws
    /// the lots.
    pub fn settle_pair(
        &mut self,
        j: usize,
        c0: Chromosome,
        c1: Chromosome,
        first_child_wins: bool,
        second_child_wins: bool,
    )
        requires
            old(self).well_formed(),
            old(self).options.perform_crowding,
            j + 1 < old(self).mating_pool.len(),
            all_bred(old(self).mating_pool@, old(self).makespan.instance@),
            old(self).mating_pool@[j as int].evaluated(old(self).makespan.instance@),
            old(self).mating_pool@[j + 1].evaluated(old(self).makespan.instance@),
            is_permutation(c0.jobs@, old(self).makespan.instance@.jobs),
            is_permutation(c1.jobs@, old(self).makespan.instance@.jobs),
            c0.evaluated(old(self).makespan.instance@),
            c1.evaluated(old(self).makespan.instance@),
        ensures
            final(self).well_formed(),
            final(self).continues(old(self)),
            final(self).mating_pool.len() == old(self).mating_pool.len(),
            all_bred(final(self).mating_pool@, old(self).makespan.instance@),
            forall|i: int|
                0 <= i < old(self).mating_pool.len() && i != j && i != j + 1
                    ==> #[trigger] final(self).mating_pool@[i] == old(self).mating_pool@[i],
            survived_by_lot(
                old(self).options.distance_metric,
                old(self).mating_pool@[j as int],
                old(self).mating_pool@[j + 1],
                c0,
                c1,
                first_child_wins,
                second_child_wins,
                final(self).mating_pool@[j as int],
                final(self).mating_pool@[j + 1],
            ),
            final(self).makespan == old(self).makespan,
            final(self).bandit == old(self).bandit,
            final(self).population == old(self).population,
            final(self).best_makespan == old(self).best_makespan,
            final(self).iteration == old(self).iteration,
            final(self).non_improvement_counter == old(self).non_improvement_counter,
    {
        let ghost inst = self.makespan.instance@;
        let ghost pool = self.mating_pool@;
        let p0 = self.mating_pool[j].clone();
        let p1 = self.mating_pool[j + 1].clone();
        proof {
            lemma_partial_length(c0.jobs@, inst.jobs);
        }
        let children: Vec<Chromosome> = vec![c0, c1];
        let parents: Vec<Chromosome> = vec![p0, p1];
        let winners = survivors_by_lot(
            children.as_slice(),
            parents.as_slice(),
            self.options.distance_metric,
            first_child_wins,
            second_child_wins,
        );
        let w0 = winners[0].clone();
        let w1 = winners[1].clone();
        self.mating_pool[j] = w0;
        self.mating_pool[j + 1] = w1;
        assert forall|i: int| 0 <= i < self.mating_pool.len() implies is_permutation(
            (#[trigger] self.mating_pool@[i]).jobs@,
            inst.jobs,
        ) && (self.mating_pool@[i].updated || self.mating_pool@[i].evaluated(inst)) by {
            if i != j && i != j + 1 {
                assert(self.mating_pool@[i] == pool[i]);
            }
        }
    }

    /// Puts in the place of the pair at the places `j` and `j + 1` of the
    /// mating pool its two children, or, with crowding, the winners of the
    /// duels between the pair and its children.
    pub fn cross_pair(&mut self, j: usize)
        requires
            old(self).well_formed(),
            j + 1 < old(self).mating_pool.len(),
            all_bred(old(self).mating_pool@, old(self).makespan.instance@),
            old(self).mating_pool@[j as int].evaluated(old(self).makespan.instance@),
            old(self).mating_pool@[j + 1].evaluated(old(self).makespan.instance@),
        ensures
            final(self).well_formed(),
            final(self).continues(old(self)),
            final(self).mating_pool.len() == old(self).mating_pool.len(),
            all_bred(final(self).mating_pool@, old(self).makespan.instance@),
            forall|i: int|
                0 <= i < old(self).mating_pool.len() && i != j && i != j + 1
                    ==> #[trigger] final(self).mating_pool@[i] == old(self).mating_pool@[i],
            crossed_at(
                old(self).mating_pool@,
                final(self).mating_pool@,
                j as int,
                old(self).options.xover_type,
                old(self).options.perform_crowding,
                old(self).options.distance_metric,
                old(self).makespan.instance@,
            ),
            !(old(self).options.xover_type is QLearning) ==> final(self).bandit
                == old(self).bandit,
            unevaluating(old(self).options.xover_type, old(self).options.perform_crowding)
                ==> final(self).makespan == old(self).makespan,
            final(self).population == old(self).population,
            final(self).best_makespan == old(self).best_makespan,
            final(self).iteration == old(self).iteration,
            final(self).non_improvement_counter == old(self).non_improvement_counter,
    {
        let ghost inst = self.makespan.instance@;
        let ghost pool = self.mating_pool@;
        let ghost kind = self.options.xover_type;
        let ghost dtype = self.options.distance_metric;
        if self.options.perform_crowding {
            let (c0, c1) = self.pair_children(j);
            let p0 = self.mating_pool[j].clone();
            let p1 = self.mating_pool[j + 1].clone();
            proof {
                lemma_partial_length(c0.jobs@, inst.jobs);
            }
            let ghost k0 = c0;
            let ghost k1 = c1;
            let children: Vec<Chromosome> = vec![c0, c1];
            let parents: Vec<Chromosome> = vec![p0, p1];
            let winners = survivor_selection(
                children.as_slice(),
                parents.as_slice(),
                self.options.distance_metric,
                &mut self.rng,
            );
            let w0 = winners[0].clone();
            let w1 = winners[1].clone();
            proof {
                lemma_survived_copies(
                    dtype,
                    p0,
                    p1,
                    k0,
                    k1,
                    winners@[0],
                    winners@[1],
                    pool[j as int],
                    pool[j + 1],
                    w0,
                    w1,
                );
                assert(crossed(kind, true, dtype, pool[j as int], pool[j + 1], w0, w1, inst));
            }
            self.mating_pool[j] = w0;
            self.mating_pool[j + 1] = w1;
        } else {
            let p0 = self.mating_pool[j].clone();
            let p1 = self.mating_pool[j + 1].clone();
            let (c0, c1) = crossover_by(
                self.options.xover_type,
                &mut self.bandit,
                &p0,
                &p1,
                &mut self.makespan,
                &mut self.rng,
            );
            proof {
                assert(crossed(kind, false, dtype, pool[j as int], pool[j + 1], c0, c1, inst));
            }
            self.mating_pool[j] = c0;
            self.mating_pool[j + 1] = c1;
        }
        assert forall|i: int| 0 <= i < self.mating_pool.len() implies is_permutation(
            (#[trigger] self.mating_pool@[i]).jobs@,
            inst.jobs,
        ) && (self.mating_pool@[i].updated || self.mating_pool@[i].evaluated(inst)) by {
            if i != j && i != j + 1 {
                assert(self.mating_pool@[i] == pool[i]);
            }
        }
    }

    /// Mutation: each chromosome of the mating pool is, with the
    /// probability that the settings give, mutated by the operator that
    /// they name; the others stay as they are.
    pub fn mutate(&mut self)
        requires
            old(self).well_formed(),
            all_bred(old(self).mating_pool@, old(self).makespan.instance@),
        ensures
            final(self).well_formed(),
            final(self).continues(old(self)),
            final(self).mating_pool.len() == old(self).mating_pool.len(),
            all_bred(final(self).mating_pool@, old(self).makespan.instance@),
            mutants_or_same(
                old(self).options.mutation_type,
                old(self).mating_pool@,
                final(self).mating_pool@,
                old(self).makespan.instance@,
            ),
            old(self).options.mutation_prob == PER_MILLE ==> all_mutants(
                old(self).options.mutation_type,
                old(self).mating_pool@,
                final(self).mating_pool@,
                old(self).makespan.instance@,
            ),
            old(self).options.mutation_prob == 0 ==> final(self).mating_pool@
                == old(self).mating_pool@ && final(self).makespan == old(self).makespan,
            final(self).population == old(self).population,
            final(self).bandit == old(self).bandit,
            final(self).best_makespan == old(self).best_makespan,
            final(self).iteration == old(self).iteration,
            final(self).non_improvement_counter == old(self).non_improvement_counter,
    {
        let ghost inst = self.makespan.instance@;
        let ghost kind = self.options.mutation_type;
        let ghost before = self.mating_pool@;
        let mut i: usize = 0;
        while i < self.mating_pool.len()
            invariant
                self.well_formed(),
                self.continues(old(self)),
                inst == self.makespan.instance@,
                kind == self.options.mutation_type,
                before == old(self).mating_pool@,
                i <= self.mating_pool.len(),
                self.mating_pool.len() == old(self).mating_pool.len(),
                all_bred(self.mating_pool@, inst),
                forall|k: int|
                    i <= k < self.mating_pool.len() ==> #[trigger] self.mating_pool@[k]
                        == before[k],
                forall|k: int|
                    0 <= k < i ==> #[trigger] self.mating_pool@[k] == before[k] || is_mutant(
                        kind,
                        before[k].jobs@,
                        before[k].makespan,
                        self.mating_pool@[k],
                        inst,
                    ),
                self.options.mutation_prob == PER_MILLE ==> forall|k: int|
                    0 <= k < i ==> is_mutant(
                        kind,
                        before[k].jobs@,
                        before[k].makespan,
                        #[trigger] self.mating_pool@[k],
                        inst,
                    ),
                self.options.mutation_prob == 0 ==> self.mating_pool@ == before && self.makespan
                    == old(self).makespan,
                self.population == old(self).population,
                self.bandit == old(self).bandit,
                self.best_makespan == old(self).best_makespan,
                self.iteration == old(self).iteration,
                self.non_improvement_counter == old(self).non_improvement_counter,
            decreases self.mating_pool.len() - i,
        {
            if chance(&mut self.rng, self.options.mutation_prob, PER_MILLE) {
                let ghost pool = self.mating_pool@;
                assert(is_permutation(pool[i as int].jobs@, inst.jobs));
                mutate_by(
                    self.options.mutation_type,
                    &mut self.mating_pool[i],
                    &mut self.makespan,
                    &mut self.rng,
                );
                assert forall|k: int| 0 <= k < self.mating_pool.len() implies is_permutation(
                    (#[trigger] self.mating_pool@[k]).jobs@,
                    inst.jobs,
                ) && (self.mating_pool@[k].updated || self.mating_pool@[k].evaluated(inst)) by {
                    if k != i {
                        assert(self.mating_pool@[k] == pool[k]);
                    }
                }
                assert forall|k: int| 0 <= k < self.mating_pool.len() && k != i implies
                    #[trigger] self.mating_pool@[k] == pool[k] by {}
            }
            i += 1;
        }
    }

    /// Local search: if the settings ask for it, each chromosome of the
    /// mating pool is improved by an iterated greedy search and comes
    /// evaluated; if not, nothing changes.
    pub fn search(&mut self)
        requires
            old(self).well_formed(),
            all_bred(old(self).mating_pool@, old(self).makespan.instance@),
        ensures
            final(self).well_formed(),
            final(self).continues(old(self)),
            final(self).mating_pool.len() == old(self).mating_pool.len(),
            all_bred(final(self).mating_pool@, old(self).makespan.instance@),
            old(self).options.local_search ==> all_improved(
                old(self).mating_pool@,
                final(self).mating_pool@,
                old(self).makespan.instance@,
            ),
            !old(self).options.local_search ==> *final(self) == *old(self),
            final(self).population == old(self).population,
            final(self).bandit == old(self).bandit,
            final(self).best_makespan == old(self).best_makespan,
            final(self).iteration == old(self).iteration,
            final(self).non_improvement_counter == old(self).non_improvement_counter,
    {
        let ghost inst = self.makespan.instance@;
        let ghost before = self.mating_pool@;
        if !self.options.local_search {
            return ;
        }
        let mut i: usize = 0;
        while i < self.mating_pool.len()
            invariant
                self.well_formed(),
                self.options.local_search,
                self.continues(old(self)),
                inst == self.makespan.instance@,
                before == old(self).mating_pool@,
                i <= self.mating_pool.len(),
                self.mating_pool.len() == old(self).mating_pool.len(),
                all_bred(self.mating_pool@, inst),
                forall|k: int|
                    i <= k < self.mating_pool.len() ==> #[trigger] self.mating_pool@[k]
                        == before[k],
                forall|k: int|
                    0 <= k < i ==> (#[trigger] self.mating_pool@[k]).evaluated(inst)
                        && makespan_of(inst, self.mating_pool@[k].jobs@) <= makespan_of(
                        inst,
                        before[k].jobs@,
                    ) && is_searched(inst, before[k].jobs@, self.mating_pool@[k].jobs@),
                self.population == old(self).population,
                self.bandit == old(self).bandit,
                self.best_makespan == old(self).best_makespan,
                self.iteration == old(self).iteration,
                self.non_improvement_counter == old(self).non_improvement_counter,
            decreases self.mating_pool.len() - i,
        {
            let ghost pool = self.mating_pool@;
            assert(is_permutation(pool[i as int].jobs@, inst.jobs));
            ls_ig(
                &mut self.mating_pool[i],
                &mut self.makespan,
                self.options.approx_calc as u32,
                &mut self.rng,
            );
            assert forall|k: int| 0 <= k < self.mating_pool.len() implies is_permutation(
                (#[trigger] self.mating_pool@[k]).jobs@,
                inst.jobs,
            ) && (self.mating_pool@[k].updated || self.mating_pool@[k].evaluated(inst)) by {
                if k != i {
                    assert(self.mating_pool@[k] == pool[k]);
                }
            }
            assert forall|k: int| 0 <= k < self.mating_pool.len() && k != i implies
                #[trigger] self.mating_pool@[k] == pool[k] by {}
            i += 1;
        }
    }
}

/// The steps of a response to stagnation: `sorted` is `before` in order,
/// `renewed_pop` is `sorted` with its worse part replaced, `evald` is
/// `renewed_pop` evaluated, and `after` is `evald` in order.
pub open spec fn response_steps(
    rtype: RTYPE,
    keep: u32,
    inst: InstanceView,
    before: Seq<Chromosome>,
    sorted: Seq<Chromosome>,
    renewed_pop: Seq<Chromosome>,
    evald: Seq<Chromosome>,
    after: Seq<Chromosome>,
) -> bool {
    &&& ordered_from(before, sorted)
    &&& replaced(sorted, renewed_pop, keep, inst)
    &&& renewed(rtype, sorted, renewed_pop, keep, inst)
    &&& evaluated_from(renewed_pop, evald, inst)
    &&& ordered_from(evald, after)
}

/// `after` is what a response to stagnation can make of `before`: the
/// population in order, with its worse part replaced as `rtype` says,
/// evaluated and in order again.
pub open spec fn is_response(
    rtype: RTYPE,
    keep: u32,
    inst: InstanceView,
    before: Seq<Chromosome>,
    after: Seq<Chromosome>,
) -> bool {
    exists|sorted: Seq<Chromosome>, renewed_pop: Seq<Chromosome>, evald: Seq<Chromosome>|
        #[trigger] response_steps(rtype, keep, inst, before, sorted, renewed_pop, evald, after)
}

/// `after` is the population `before` as a generation finds it once
/// stagnation is answered: in order, and, if the search had stalled, with
/// its worse part replaced.
pub open spec fn answered(
    stalled: bool,
    rtype: RTYPE,
    keep: u32,
    inst: InstanceView,
    before: Seq<Chromosome>,
    after: Seq<Chromosome>,
) -> bool {
    if stalled {
        is_response(rtype, keep, inst, before, after)
    } else {
        ordered_from(before, after)
    }
}

/// The steps from a population to its offspring: `selected` are copies of
/// members of `mid`, `crossed` is `selected` recombined, `mutated` is
/// `crossed` mutated, `searched` is `mutated` improved by local search if
/// the settings ask for it, and `kids` is `searched` evaluated.
pub open spec fn bred_in_steps(
    mid: Seq<Chromosome>,
    selected: Seq<Chromosome>,
    crossed: Seq<Chromosome>,
    mutated: Seq<Chromosome>,
    searched: Seq<Chromosome>,
    kids: Seq<Chromosome>,
    options: Options,
    inst: InstanceView,
) -> bool {
    &&& selected.len() == options.pop_size - options.elitism
    &&& crossed.len() == selected.len()
    &&& mutated.len() == selected.len()
    &&& searched.len() == selected.len()
    &&& copies_of(selected, mid)
    &&& recombined(
        selected,
        crossed,
        options.xover_type,
        options.perform_crowding,
        options.distance_metric,
        inst,
    )
    &&& options.xover_prob == PER_MILLE ==> all_crossed(
        selected,
        crossed,
        options.xover_type,
        options.perform_crowding,
        options.distance_metric,
        inst,
    )
    &&& options.xover_prob == 0 ==> crossed == selected
    &&& mutants_or_same(options.mutation_type, crossed, mutated, inst)
    &&& options.mutation_prob == PER_MILLE ==> all_mutants(
        options.mutation_type,
        crossed,
        mutated,
        inst,
    )
    &&& options.mutation_prob == 0 ==> mutated == crossed
    &&& options.local_search ==> all_improved(mutated, searched, inst)
    &&& !options.local_search ==> searched == mutated
    &&& evaluated_from(searched, kids, inst)
}

/// `kids` are offspring of `mid`: they come from it by selection,
/// recombination, mutation, local search and evaluation, as the settings
/// say.
pub open spec fn descends(
    mid: Seq<Chromosome>,
    kids: Seq<Chromosome>,
    options: Options,
    inst: InstanceView,
) -> bool {
    exists|
        selected: Seq<Chromosome>,
        crossed: Seq<Chromosome>,
        mutated: Seq<Chromosome>,
        searched: Seq<Chromosome>,
    |
        #[trigger] bred_in_steps(mid, selected, crossed, mutated, searched, kids, options, inst)
}

/// The number after `n`, which is `n` itself at the top.
pub open spec fn next_after(n: usize) -> usize {
    if n < usize::MAX {
        (n + 1) as usize
    } else {
        n
    }
}

/// The generation `rounds` generations after generation `from`, which is
/// the top where the count would run past it.
pub open spec fn moved_on(from: usize, rounds: usize) -> usize {
    if from + rounds <= usize::MAX {
        (from + rounds) as usize
    } else {
        usize::MAX
    }
}

/// How the record and the count of generations without improvement go on:
/// if the newcomers count as an improvement, the count falls to 0 and the
/// record gets a line with the generation, the best makespan of the
/// newcomers, `best_new`, and the number of simulations; if not, the record
/// stays and the count rises by one.
pub open spec fn recorded(
    record: Seq<Improvement>,
    counter: usize,
    iteration: usize,
    evaluations: u32,
    improved: bool,
    best_new: int,
    new_record: Seq<Improvement>,
    new_counter: usize,
) -> bool {
    if !improved {
        new_record == record && new_counter == next_after(counter)
    } else {
        new_record == record.push(
            (Improvement { iteration, makespan: best_new as u32, evaluations }),
        ) && new_counter == 0
    }
}

/// Each state of `states` but the first is what a generation makes of the
/// one before it.
pub open spec fn is_generation_chain(states: Seq<GA>) -> bool {
    forall|k: int| 0 <= k < states.len() - 1 ==> (#[trigger] states[k]).generated(&states[k + 1])
}

/// The last `elitism` chromosomes of `pop` are copies of the first
/// `elitism` of `mid`, in their order.
pub open spec fn ends_with_elite(pop: Seq<Chromosome>, mid: Seq<Chromosome>, elitism: int) -> bool {
    forall|e: int| 0 <= e < elitism ==> pop[pop.len() - elitism + e]@ == (#[trigger] mid[e])@
}

impl GA {
    /// The search has stalled: the settings let chromosomes go, and the
    /// best makespan has not improved for as many generations as they say.
    pub open spec fn stalled(&self) -> bool {
        self.options.allways_keep < PER_MILLE && self.non_improvement_counter
            >= self.options.non_improving_iterations
    }

    /// The state `after` is what the closing of a generation makes of the
    /// ordered population and the evaluated offspring of `self`: the
    /// offspring, followed by the elite, are the new population, the old
    /// population is left in the mating pool, and the record, the count of
    /// generations without improvement and the generation go on.
    pub open spec fn concluded(&self, after: &GA) -> bool {
        &&& after.mating_pool@ == self.population@
        &&& after.population@.len() == self.options.pop_size
        &&& after.population@.subrange(0, self.options.pop_size - self.options.elitism)
            == self.mating_pool@
        &&& ends_with_elite(after.population@, self.population@, self.options.elitism as int)
        &&& recorded(
            self.best_makespan@,
            self.non_improvement_counter,
            self.iteration,
            self.makespan.count,
            lowest(self.mating_pool@) <= self.population@[0].makespan.unwrap(),
            lowest(self.mating_pool@),
            after.best_makespan@,
            after.non_improvement_counter,
        )
        &&& after.iteration == next_after(self.iteration)
        &&& after.makespan == self.makespan
        &&& after.bandit == self.bandit
    }

    /// The state `after` is what a generation makes of `self`. The mating
    /// pool of `after` holds the population as the generation found it once
    /// stagnation was answered; the population of `after` holds the
    /// offspring of that population, followed by its elite. The offspring
    /// count as an improvement if their best is not worse than the best of
    /// the population they come from.
    pub open spec fn generated(&self, after: &GA) -> bool {
        &&& after.continues(self)
        &&& after.population@.len() == self.options.pop_size
        &&& after.mating_pool@.len() == self.options.pop_size
        &&& answered(
            self.stalled(),
            self.options.rtype,
            self.options.allways_keep,
            self.makespan.instance@,
            self.population@,
            after.mating_pool@,
        )
        &&& descends(
            after.mating_pool@,
            after.population@.subrange(0, self.options.pop_size - self.options.elitism),
            self.options,
            self.makespan.instance@,
        )
        &&& ends_with_elite(after.population@, after.mating_pool@, self.options.elitism as int)
        &&& recorded(
            self.best_makespan@,
            self.non_improvement_counter,
            self.iteration,
            after.makespan.count,
            lowest(after.population@.subrange(0, self.options.pop_size - self.options.elitism))
                <= after.mating_pool@[0].makespan.unwrap(),
            lowest(after.population@.subrange(0, self.options.pop_size - self.options.elitism)),
            after.best_makespan@,
            after.non_improvement_counter,
        )
        &&& after.iteration == next_after(self.iteration)
    }

    /// The state `self` is `last` with the closing line added to its
    /// record: the generation reached, the lowest makespan of the
    /// population, and the number of simulations.
    pub open spec fn closes(&self, last: &GA) -> bool {
        &&& *self == (GA { best_makespan: self.best_makespan, ..*last })
        &&& self.best_makespan@ == last.best_makespan@.push(
            (Improvement {
                iteration: last.iteration,
                makespan: lowest(last.population@) as u32,
                evaluations: last.makespan.count,
            }),
        )
    }

    /// The state `self` is what a run of generations by way of `states`
    /// leaves of `before`: `states` begins with `before`, holds one state
    /// more for each generation that the settings ask for, each made by a
    /// generation of the one before it, and `self` is the last of them with
    /// its record closed.
    pub open spec fn ends_generations(&self, before: &GA, states: Seq<GA>) -> bool {
        &&& states.len() == before.options.iterations + 1
        &&& states[0] == *before
        &&& is_generation_chain(states)
        &&& self.closes(&states.last())
    }

    /// The state `self` is what a run of as many generations as the
    /// settings say leaves of `before`.
    pub open spec fn ran_generations(&self, before: &GA) -> bool {
        exists|states: Seq<GA>| #[trigger] self.ends_generations(before, states)
    }

    /// The state `self` is what a run leaves of `before`: as many
    /// generations on as the settings say, with a record that begins with
    /// the old one and ends with a closing line, which holds the generation
    /// reached, the lowest makespan of the population and the number of
    /// simulations.
    pub open spec fn closes_run_of(&self, before: &GA) -> bool {
        &&& self.iteration == moved_on(before.iteration, before.options.iterations)
        &&& extends(self.best_makespan@, before.best_makespan@)
        &&& self.best_makespan@.len() >= before.best_makespan@.len() + 1
        &&& self.best_makespan@.last().iteration == self.iteration
        &&& self.best_makespan@.last().evaluations == self.makespan.count
        &&& self.best_makespan@.last().makespan == lowest(self.population@)
        &&& is_lowest(self.population@, self.best_makespan@.last().makespan as int)
    }

    /// The response to stagnation: if the search has stalled, the
    /// population is ordered by makespan, its worse part is replaced, and
    /// it is evaluated and ordered again. Else nothing changes.
    pub fn respond_to_stagnation(&mut self)
        requires
            old(self).well_formed(),
        ensures
            final(self).well_formed(),
            final(self).continues(old(self)),
            old(self).stalled() ==> is_response(
                old(self).options.rtype,
                old(self).options.allways_keep,
                old(self).makespan.instance@,
                old(self).population@,
                final(self).population@,
            ),
            !old(self).stalled() ==> *final(self) == *old(self),
            kept_count(old(self).options.pop_size as nat, old(self).options.allways_keep) >= 1
                ==> not_worse(final(self).population@, old(self).population@),
            ascending_makespans(old(self).population@) ==> ascending_makespans(
                final(self).population@,
            ),
            final(self).mating_pool == old(self).mating_pool,
            final(self).bandit == old(self).bandit,
            final(self).best_makespan == old(self).best_makespan,
            final(self).iteration == old(self).iteration,
            final(self).non_improvement_counter == old(self).non_improvement_counter,
    {
        let ghost inst = self.makespan.instance@;
        let ghost start = self.population@;
        if self.options.allways_keep < PER_MILLE && self.non_improvement_counter
            >= self.options.non_improving_iterations {
            sort_population(&mut self.population);
            let ghost sorted = self.population@;
            proof {
                lemma_reordered_evaluated(sorted, start, inst);
                lemma_not_worse_reordered(sorted, start);
            }
            replace_by(
                self.options.rtype,
                &mut self.population,
                self.options.allways_keep,
                &mut self.makespan,
                &mut self.rng,
            );
            let ghost replaced = self.population@;
            evaluate_all(&mut self.population, &mut self.makespan);
            let ghost evaluated = self.population@;
            sort_population(&mut self.population);
            proof {
                assert(response_steps(
                    self.options.rtype,
                    self.options.allways_keep,
                    inst,
                    start,
                    sorted,
                    replaced,
                    evaluated,
                    self.population@,
                ));
                lemma_reordered_evaluated(self.population@, evaluated, inst);
                lemma_not_worse_reordered(self.population@, evaluated);
                if kept_count(self.options.pop_size as nat, self.options.allways_keep) >= 1 {
                    assert(evaluated[0] == replaced[0]);
                    assert(replaced[0] == sorted[0]);
                    assert(not_worse(evaluated, sorted)) by {
                        reveal(not_worse);
                        assert forall|i: int| 0 <= i < sorted.len() implies exists|k: int|
                            0 <= k < evaluated.len() && (#[trigger] evaluated[k]).makespan.unwrap()
                                <= (#[trigger] sorted[i]).makespan.unwrap() by {
                            assert(evaluated[0].makespan.unwrap() <= sorted[i].makespan.unwrap());
                        }
                    }
                    lemma_not_worse_chain(evaluated, sorted, start);
                    lemma_not_worse_chain(self.population@, evaluated, start);
                }
            }
        } else {
            proof {
                lemma_not_worse_reordered(start, start);
            }
        }
    }

    /// The breeding of a generation: stagnation is answered; selection,
    /// recombination, mutation and local search fill the mating pool; then
    /// the population is put in order and the offspring are evaluated.
    pub fn breed(&mut self)
        requires
            old(self).well_formed(),
        ensures
            final(self).well_formed(),
            final(self).continues(old(self)),
            answered(
                old(self).stalled(),
                old(self).options.rtype,
                old(self).options.allways_keep,
                old(self).makespan.instance@,
                old(self).population@,
                final(self).population@,
            ),
            ascending_makespans(final(self).population@),
            kept_count(old(self).options.pop_size as nat, old(self).options.allways_keep) >= 1
                ==> not_worse(final(self).population@, old(self).population@),
            final(self).mating_pool.len() == old(self).options.pop_size - old(self).options.elitism,
            all_evaluated(final(self).mating_pool@, old(self).makespan.instance@),
            descends(
                final(self).population@,
                final(self).mating_pool@,
                old(self).options,
                old(self).makespan.instance@,
            ),
            final(self).best_makespan == old(self).best_makespan,
            final(self).iteration == old(self).iteration,
            final(self).non_improvement_counter == old(self).non_improvement_counter,
    {
        let ghost inst = self.makespan.instance@;
        let ghost start = self.population@;
        let ghost was_stalled = self.stalled();
        self.respond_to_stagnation();
        let ghost responded = self.population@;
        self.select();
        let ghost selected = self.mating_pool@;
        self.recombine();
        let ghost crossed = self.mating_pool@;
        self.mutate();
        let ghost mutated = self.mating_pool@;
        self.search();
        let ghost searched = self.mating_pool@;
        sort_population(&mut self.population);
        let ghost mid = self.population@;
        proof {
            lemma_reordered_evaluated(mid, responded, inst);
            lemma_not_worse_reordered(mid, responded);
            if kept_count(self.options.pop_size as nat, self.options.allways_keep) >= 1 {
                lemma_not_worse_chain(mid, responded, start);
            }
            if was_stalled {
                let rtype = self.options.rtype;
                let keep = self.options.allways_keep;
                let (sorted, renewed_pop, evald) = choose|
                    sorted: Seq<Chromosome>,
                    renewed_pop: Seq<Chromosome>,
                    evald: Seq<Chromosome>,
                |
                    #[trigger] response_steps(
                        rtype,
                        keep,
                        inst,
                        start,
                        sorted,
                        renewed_pop,
                        evald,
                        responded,
                    );
                assert(response_steps(rtype, keep, inst, start, sorted, renewed_pop, evald, mid));
            }
            lemma_same_members(mid, responded);
            assert forall|i: int| 0 <= i < selected.len() implies is_copy_of(
                #[trigger] selected[i],
                mid,
            ) by {
                let k = choose|k: int|
                    0 <= k < responded.len() && selected[i]@ == (#[trigger] responded[k])@;
                assert(mid.contains(responded[k]));
                let at = choose|at: int| 0 <= at < mid.len() && mid[at] == responded[k];
                assert(selected[i]@ == mid[at]@);
            }
        }
        self.makespan();
        proof {
            assert(bred_in_steps(
                mid,
                selected,
                crossed,
                mutated,
                searched,
                self.mating_pool@,
                self.options,
                inst,
            ));
        }
    }

    /// The closing of a generation, once the population is in order and
    /// the mating pool holds the evaluated offspring: if the best of the
    /// offspring is not worse than the best of the population, a line is
    /// added to the record; then the offspring, together with the elite of
    /// the population, become the new population.
    pub fn conclude(&mut self)
        requires
            old(self).well_formed(),
            ascending_makespans(old(self).population@),
            old(self).mating_pool.len() == old(self).options.pop_size - old(self).options.elitism,
            all_evaluated(old(self).mating_pool@, old(self).makespan.instance@),
        ensures
            final(self).well_formed(),
            final(self).continues(old(self)),
            old(self).concluded(final(self)),
    {
        let ghost inst = self.makespan.instance@;
        let ghost sorted = self.population@;
        let ghost kids = self.mating_pool@;
        let best = best_index(&self.mating_pool);
        let best_offspring: u32 = self.mating_pool[best].makespan.unwrap();
        proof {
            lemma_first_minimum_is(makespans(kids), best as int);
            assert(best_offspring == lowest(kids));
        }
        if self.population[0].makespan.unwrap() < best_offspring {
            if self.non_improvement_counter < usize::MAX {
                self.non_improvement_counter += 1;
            }
        } else {
            self.non_improvement_counter = 0;
            self.best_makespan.push(
                Improvement {
                    iteration: self.iteration,
                    makespan: best_offspring,
                    evaluations: self.makespan.count,
                },
            );
        }
        let mut e: usize = 0;
        while e < self.options.elitism
            invariant
                e <= self.options.elitism < self.options.pop_size,
                self.population@ == sorted,
                sorted.len() == self.options.pop_size,
                kids.len() == self.options.pop_size - self.options.elitism,
                inst == self.makespan.instance@,
                all_evaluated(sorted, inst),
                self.mating_pool.len() == kids.len() + e,
                all_evaluated(self.mating_pool@, inst),
                self.mating_pool@.subrange(0, kids.len() as int) == kids,
                forall|i: int|
                    0 <= i < e ==> self.mating_pool@[kids.len() + i]@ == (#[trigger] sorted[i])@,
                self.continues(old(self)),
                self.makespan == old(self).makespan,
                self.bandit == old(self).bandit,
                self.options == old(self).options,
                self.bandit.well_formed(),
                self.instance@ == inst,
                self.iteration == old(self).iteration,
                recorded(
                    old(self).best_makespan@,
                    old(self).non_improvement_counter,
                    old(self).iteration,
                    self.makespan.count,
                    lowest(kids) <= sorted[0].makespan.unwrap(),
                    lowest(kids),
                    self.best_makespan@,
                    self.non_improvement_counter,
                ),
            decreases self.options.elitism - e,
        {
            let ghost pool = self.mating_pool@;
            let elite = self.population[e].clone();
            self.mating_pool.push(elite);
            assert forall|i: int| 0 <= i < self.mating_pool.len() implies is_permutation(
                (#[trigger] self.mating_pool@[i]).jobs@,
                inst.jobs,
            ) && self.mating_pool@[i].evaluated(inst) by {
                if i < pool.len() {
                    assert(self.mating_pool@[i] == pool[i]);
                } else {
                    assert(is_permutation(sorted[e as int].jobs@, inst.jobs));
                }
            }
            assert(self.mating_pool@.subrange(0, kids.len() as int) =~= pool.subrange(
                0,
                kids.len() as int,
            ));
            assert forall|i: int| 0 <= i < e + 1 implies self.mating_pool@[kids.len() + i]@ == (
            #[trigger] sorted[i])@ by {
                if i < e {
                    assert(self.mating_pool@[kids.len() + i] == pool[kids.len() + i]);
                }
            }
            e += 1;
        }
        std::mem::swap(&mut self.population, &mut self.mating_pool);
        if self.iteration < usize::MAX {
            self.iteration += 1;
        }
    }

    /// One generation: stagnation is answered; selection, recombination,
    /// mutation, local search and evaluation breed the offspring; then the
    /// offspring, together with the elite of the population, become the
    /// new population. If the best of the offspring is not worse than the
    /// best of the population, a line is added to the record.
    pub fn generation(&mut self)
        requires
            old(self).well_formed(),
        ensures
            final(self).well_formed(),
            final(self).continues(old(self)),
            old(self).generated(final(self)),
            old(self).options.elitism >= 1 && kept_count(
                old(self).options.pop_size as nat,
                old(self).options.allways_keep,
            ) >= 1 ==> not_worse(final(self).population@, old(self).population@),
            extends(final(self).best_makespan@, old(self).best_makespan@),
            final(self).best_makespan@.len() <= old(self).best_makespan@.len() + 1,
    {
        let ghost start = self.population@;
        self.breed();
        let ghost bred = *self;
        let ghost sorted = self.population@;
        self.conclude();
        proof {
            assert(bred.concluded(self));
            if self.options.elitism >= 1 && kept_count(
                self.options.pop_size as nat,
                self.options.allways_keep,
            ) >= 1 {
                let at = self.options.pop_size - self.options.elitism;
                assert(not_worse(self.population@, sorted)) by {
                    reveal(not_worse);
                    assert forall|i: int| 0 <= i < sorted.len() implies exists|k: int|
                        0 <= k < self.population@.len() && (
                        #[trigger] self.population@[k]).makespan.unwrap() <= (
                        #[trigger] sorted[i]).makespan.unwrap() by {
                        assert(sorted[0].makespan.unwrap() <= sorted[i].makespan.unwrap());
                        assert(self.population@[at + 0]@ == sorted[0]@);
                    }
                }
                lemma_not_worse_chain(self.population@, sorted, start);
            }
        }
    }

    /// Adds the closing line to the record: the generation reached, the
    /// lowest makespan of the population, and the number of simulations.
    /// Nothing else changes.
    pub fn final_makespan(&mut self)
        requires
            old(self).well_formed(),
            old(self).population.len() >= 1,
        ensures
            final(self).well_formed(),
            final(self).continues(old(self)),
            final(self).population == old(self).population,
            final(self).mating_pool == old(self).mating_pool,
            final(self).makespan == old(self).makespan,
            final(self).bandit == old(self).bandit,
            final(self).iteration == old(self).iteration,
            final(self).non_improvement_counter == old(self).non_improvement_counter,
            final(self).best_makespan@ == old(self).best_makespan@.push(
                (Improvement {
                    iteration: old(self).iteration,
                    makespan: lowest(old(self).population@) as u32,
                    evaluations: old(self).makespan.count,
                }),
            ),
            final(self).closes(old(self)),
            final(self).best_makespan@.last().makespan == lowest(old(self).population@),
            is_lowest(old(self).population@, final(self).best_makespan@.last().makespan as int),
    {
        let best = best_index(&self.population);
        let line = Improvement {
            iteration: self.iteration,
            makespan: self.population[best].makespan.unwrap(),
            evaluations: self.makespan.count,
        };
        proof {
            lemma_first_minimum_is(makespans(self.population@), best as int);
            lemma_lowest(self.population@);
        }
        self.best_makespan.push(line);
    }

    /// Runs as many generations as the settings say and closes the record.
    pub fn run(&mut self)
        requires
            old(self).well_formed(),
        ensures
            final(self).well_formed(),
            final(self).continues(old(self)),
            old(self).options.elitism >= 1 && kept_count(
                old(self).options.pop_size as nat,
                old(self).options.allways_keep,
            ) >= 1 ==> not_worse(final(self).population@, old(self).population@),
            final(self).closes_run_of(old(self)),
            final(self).ran_generations(old(self)),
    {
        let ghost start = self.population@;
        let ghost record = self.best_makespan@;
        let ghost mut states: Seq<GA> = seq![*self];
        proof {
            lemma_not_worse_reordered(start, start);
        }
        let mut round: usize = 0;
        while round < self.options.iterations
            invariant
                self.well_formed(),
                self.continues(old(self)),
                round <= self.options.iterations,
                states.len() == round + 1,
                states[0] == *old(self),
                states.last() == *self,
                is_generation_chain(states),
                start == old(self).population@,
                record == old(self).best_makespan@,
                extends(self.best_makespan@, record),
                self.iteration == moved_on(old(self).iteration, round),
                self.options.elitism >= 1 && kept_count(
                    self.options.pop_size as nat,
                    self.options.allways_keep,
                ) >= 1 ==> not_worse(self.population@, start),
            decreases self.options.iterations - round,
        {
            let ghost before = self.population@;
            let ghost so_far = states;
            self.generation();
            proof {
                if self.options.elitism >= 1 && kept_count(
                    self.options.pop_size as nat,
                    self.options.allways_keep,
                ) >= 1 {
                    lemma_not_worse_chain(self.population@, before, start);
                }
                states = so_far.push(*self);
                assert forall|k: int| 0 <= k < states.len() - 1 implies (
                #[trigger] states[k]).generated(&states[k + 1]) by {
                    if k < so_far.len() - 1 {
                        assert(states[k] == so_far[k]);
                        assert(states[k + 1] == so_far[k + 1]);
                    } else {
                        assert(states[k] == so_far.last());
                    }
                }
            }
            round += 1;
        }
        let ghost reached = self.best_makespan@;
        self.final_makespan();
        proof {
            assert(self.ends_generations(old(self), states));
            assert(self.best_makespan@.len() == reached.len() + 1);
            assert forall|i: int| 0 <= i < record.len() implies #[trigger] self.best_makespan@[i]
                == record[i] by {
                assert(self.best_makespan@[i] == reached[i]);
            }
        }
    }
}

impl Options {
    /// Sets up a run on `instance`: the first population is built as the
    /// settings say, filled up with random permutations and evaluated, and
    /// the record begins with its lowest makespan.
    pub fn build(self, instance: Instance, rng: StdRng) -> (r: GA)
        requires
            self.usable(),
            instance@.well_formed(),
            instance@.jobs >= 2,
            takes_blocks(self.xover_type) ==> instance@.jobs >= 10,
            self.local_search ==> instance@.jobs > 2,
            self.perform_crowding ==> instance@.jobs * instance@.jobs <= i32::MAX,
        ensures
            r.well_formed(),
            r.options == self,
            r.instance@ == instance@,
            r.iteration == 0,
            r.non_improvement_counter == 0,
            r.mating_pool@.len() == 0,
            r.best_makespan@.len() == 1,
            r.best_makespan@[0].iteration == 0,
            r.best_makespan@[0].evaluations == 0,
            is_lowest(r.population@, r.best_makespan@[0].makespan as int),
            self.construction is NEH ==> is_neh_schedule(instance@, r.population@[0].jobs@),
            self.construction matches Construction::MDDR(share) ==> forall|i: int|
                0 <= i < kept_count(self.pop_size as nat, share) ==> is_greedy_schedule(
                    instance@,
                    (#[trigger] r.population@[i]).jobs@,
                ),
    {
        let ghost inst = instance@;
        let mut rng = rng;
        let mut makespan = Makespan::new(&instance);
        let mut population: Vec<Chromosome> = Vec::with_capacity(self.pop_size);
        match self.construction {
            Construction::MDDR(share) => {
                let built: usize = crate::replacement::always_keep(self.pop_size, share);
                while population.len() < built
                    invariant
                        built <= self.pop_size,
                        makespan.instance@ == inst,
                        inst.well_formed(),
                        all_bred(population@, inst),
                        population.len() <= built,
                        forall|i: int|
                            0 <= i < population.len() ==> is_greedy_schedule(
                                inst,
                                (#[trigger] population@[i]).jobs@,
                            ),
                    decreases built - population.len(),
                {
                    let ghost before = population@;
                    let c = construct(&mut makespan, &mut rng);
                    population.push(c);
                    assert forall|i: int| 0 <= i < population.len() implies is_permutation(
                        (#[trigger] population@[i]).jobs@,
                        inst.jobs,
                    ) && (population@[i].updated || population@[i].evaluated(inst))
                        && is_greedy_schedule(inst, population@[i].jobs@) by {
                        if i < before.len() {
                            assert(population@[i] == before[i]);
                        }
                    }
                }
            },
            Construction::NEH => {
                let (neh_permutation, mks) = NEH::neh(&mut makespan);
                population.push(Chromosome::new_with_makespan(neh_permutation, mks));
            },
            Construction::Random => {},
        }
        let ghost constructed = population@;
        while population.len() < self.pop_size
            invariant
                instance@ == inst,
                all_bred(population@, inst),
                population.len() <= self.pop_size,
                constructed.len() <= population.len(),
                forall|i: int| 0 <= i < constructed.len() ==> #[trigger] population@[i] == constructed[i],
            decreases self.pop_size - population.len(),
        {
            let ghost before = population@;
            let c = Chromosome::new(&instance, &mut rng);
            population.push(c);
            assert forall|i: int| 0 <= i < population.len() implies is_permutation(
                (#[trigger] population@[i]).jobs@,
                inst.jobs,
            ) && (population@[i].updated || population@[i].evaluated(inst)) by {
                if i < before.len() {
                    assert(population@[i] == before[i]);
                }
            }
        }
        let mut makespan = Makespan::new(&instance);
        evaluate_all(&mut population, &mut makespan);
        let best = best_index(&population);
        let line = Improvement {
            iteration: 0,
            makespan: population[best].makespan.unwrap(),
            evaluations: 0,
        };
        proof {
            let values = makespans(population@);
            assert forall|i: int| 0 <= i < population.len() implies line.makespan <= (
            #[trigger] population@[i]).makespan.unwrap() by {
                assert(values[best as int] <= values[i]);
            }
            assert(population@[best as int].makespan.unwrap() == line.makespan);
        }
        let mut best_makespan: Vec<Improvement> = Vec::new();
        best_makespan.push(line);
        let bandit = Qlearning::new(self.learning_rate, self.epsilon);
        GA {
            instance,
            population,
            mating_pool: Vec::with_capacity(self.pop_size),
            makespan,
            options: self,
            rng,
            bandit,
            best_makespan,
            iteration: 0,
            non_improvement_counter: 0,
        }
    }
}

} // verus!
