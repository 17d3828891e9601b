//! The steady-state scheme: two children at a time compete for places in a
//! population that is kept in order.

use crate::chromosome::Chromosome;
use crate::crossover::bandit::lower;
use crate::crowding::{is_weakest, k_nearest_replacement, nearest, nearest_rival, DTYPE};
use crate::ga::population::{
    ascending_makespans, copies_of, evaluated_from, extends, holds_order, is_copy_of,
    lemma_not_worse_chain, lemma_not_worse_reordered, lemma_reordered_evaluated, not_worse,
    ordered_from, sort_population, swap_in,
};
use crate::ga::{
    answered, crossed, crossover_by, moved_on, next_after, recorded, Improvement, GA,
};
use crate::instance::InstanceView;
use crate::local_search::{all_improved, ls_ig};
use crate::mutation::{all_mutants, mutants_or_same};
use crate::options::Options;
use crate::params::PER_MILLE;
use crate::permutation::{is_permutation, lemma_partial_length};
use crate::random::chance;
use crate::replacement::{kept_count, mutate_by};
use vstd::prelude::*;

verus! {

/// `after` is the ordered population `before` in which `c` has taken the
/// place of the chromosome at `at`: it is in order, and holds `c` and the
/// chromosomes of `before` but that one.
pub open spec fn takes_place(
    before: Seq<Chromosome>,
    at: int,
    c: Chromosome,
    after: Seq<Chromosome>,
) -> bool {
    ascending_makespans(after) && after.to_multiset() == before.remove(at).to_multiset().insert(c)
}

/// `after` is what the competition of `c` with the rival at place `q` of
/// its nearest neighbours leaves of `before`: the rival is the weakest of
/// the `k` nearest neighbours, and `c` has taken its place unless `c` is
/// worse.
pub open spec fn crowded_in(
    dtype: DTYPE,
    k: int,
    before: Seq<Chromosome>,
    c: Chromosome,
    after: Seq<Chromosome>,
    q: int,
) -> bool {
    &&& is_weakest(nearest(dtype, c, before, k), before, q)
    &&& if c.makespan.unwrap() <= before[nearest(
        dtype,
        c,
        before,
        k,
    )[q].0 as int].makespan.unwrap() {
        takes_place(before, nearest(dtype, c, before, k)[q].0 as int, c, after)
    } else {
        after == before
    }
}

/// `pop` holds a chromosome with the job order of `c`.
pub open spec fn present(pop: Seq<Chromosome>, c: Chromosome) -> bool {
    exists|i: int| 0 <= i < pop.len() && (#[trigger] pop[i]).jobs@ == c.jobs@
}

/// `after` is what the competition of the evaluated child `c` for a place
/// leaves of the ordered population `before`. With crowding the rival of
/// `c` is the weakest of its nearest neighbours, and `c` takes the rival's
/// place unless it is worse. Without crowding `c` takes the place of the
/// last chromosome if it is better and the population does not hold its
/// job order yet.
pub open spec fn competed(
    options: Options,
    before: Seq<Chromosome>,
    c: Chromosome,
    after: Seq<Chromosome>,
) -> bool {
    if options.perform_crowding {
        exists|q: int|
            #[trigger] crowded_in(
                options.distance_metric,
                options.k_nearest as int,
                before,
                c,
                after,
                q,
            )
    } else if c.makespan.unwrap() < before.last().makespan.unwrap() && !present(before, c) {
        takes_place(before, before.len() - 1, c, after)
    } else {
        after == before
    }
}

/// The steps from a population to a pair of evaluated children: `parents`
/// are copies of two members of `pop`, `bred` are their two children,
/// `mutated` is `bred` mutated, `searched` is `mutated` improved by local
/// search if the settings ask for it, and `kids` is `searched` evaluated.
pub open spec fn pair_steps(
    pop: Seq<Chromosome>,
    parents: Seq<Chromosome>,
    bred: Seq<Chromosome>,
    mutated: Seq<Chromosome>,
    searched: Seq<Chromosome>,
    kids: Seq<Chromosome>,
    options: Options,
    inst: InstanceView,
) -> bool {
    &&& parents.len() == 2
    &&& bred.len() == 2
    &&& mutated.len() == 2
    &&& searched.len() == 2
    &&& copies_of(parents, pop)
    &&& crossed(
        options.xover_type,
        false,
        options.distance_metric,
        parents[0],
        parents[1],
        bred[0],
        bred[1],
        inst,
    )
    &&& mutants_or_same(options.mutation_type, bred, mutated, inst)
    &&& options.mutation_prob == PER_MILLE ==> all_mutants(
        options.mutation_type,
        bred,
        mutated,
        inst,
    )
    &&& options.mutation_prob == 0 ==> mutated == bred
    &&& options.local_search ==> all_improved(mutated, searched, inst)
    &&& !options.local_search ==> searched == mutated
    &&& evaluated_from(searched, kids, inst)
}

/// `kids` are two evaluated children of `pop`: they come from two of its
/// members by crossover, mutation, local search and evaluation, as the
/// settings say.
pub open spec fn is_pair_bred(
    pop: Seq<Chromosome>,
    kids: Seq<Chromosome>,
    options: Options,
    inst: InstanceView,
) -> bool {
    exists|
        parents: Seq<Chromosome>,
        bred: Seq<Chromosome>,
        mutated: Seq<Chromosome>,
        searched: Seq<Chromosome>,
    |
        #[trigger] pair_steps(pop, parents, bred, mutated, searched, kids, options, inst)
}

/// Each state of `states` but the first is what a step of the steady-state
/// scheme makes of the one before it.
pub open spec fn is_step_chain(states: Seq<GA>) -> bool {
    forall|k: int| 0 <= k < states.len() - 1 ==> (#[trigger] states[k]).stepped(&states[k + 1])
}

impl GA {
    /// The state `self` is what a run of the steady-state scheme by way of
    /// `states` leaves of `before`: `states` begins with `before` with its
    /// population put in order, holds one state more for each step that the
    /// settings ask for, each made by a step of the one before it, and
    /// `self` is the last of them with its record closed.
    pub open spec fn ends_steps(&self, before: &GA, states: Seq<GA>) -> bool {
        &&& states.len() == before.options.iterations + 1
        &&& states[0] == (GA { population: states[0].population, ..*before })
        &&& ordered_from(before.population@, states[0].population@)
        &&& is_step_chain(states)
        &&& self.closes(&states.last())
    }

    /// The state `self` is what a run of as many steps of the steady-state
    /// scheme as the settings say leaves of `before`.
    pub open spec fn ran_steps(&self, before: &GA) -> bool {
        exists|states: Seq<GA>| #[trigger] self.ends_steps(before, states)
    }

    /// The state `after` is what a step of the steady-state scheme makes of
    /// `self` by way of `mid`, `kids` and `between`: `mid` is the
    /// population once stagnation is answered, `kids` are two children of
    /// it, which count as an improvement if one of them is better than the
    /// best of `mid`; the first child competes for a place in `mid`, which
    /// leaves `between`, and the second for a place in `between`.
    pub open spec fn step_taken(
        &self,
        after: &GA,
        mid: Seq<Chromosome>,
        kids: Seq<Chromosome>,
        between: Seq<Chromosome>,
    ) -> bool {
        &&& after.continues(self)
        &&& answered(
            self.stalled(),
            self.options.rtype,
            self.options.allways_keep,
            self.makespan.instance@,
            self.population@,
            mid,
        )
        &&& kids.len() == 2
        &&& is_pair_bred(mid, kids, self.options, self.makespan.instance@)
        &&& competed(self.options, mid, kids[0], between)
        &&& competed(self.options, between, kids[1], after.population@)
        &&& recorded(
            self.best_makespan@,
            self.non_improvement_counter,
            self.iteration,
            after.makespan.count,
            kids[0].makespan.unwrap() < mid[0].makespan.unwrap() || kids[1].makespan.unwrap()
                < mid[0].makespan.unwrap(),
            if kids[0].makespan.unwrap() <= kids[1].makespan.unwrap() {
                kids[0].makespan.unwrap() as int
            } else {
                kids[1].makespan.unwrap() as int
            },
            after.best_makespan@,
            after.non_improvement_counter,
        )
        &&& after.iteration == next_after(self.iteration)
    }

    /// The state `after` is what a step of the steady-state scheme makes of
    /// `self`.
    pub open spec fn stepped(&self, after: &GA) -> bool {
        exists|mid: Seq<Chromosome>, kids: Seq<Chromosome>, between: Seq<Chromosome>|
            #[trigger] self.step_taken(after, mid, kids, between)
    }

    /// The place of the rival that crowding gives the child `c`: of its
    /// nearest neighbours in the population the one with the highest
    /// makespan.
    pub fn rival_of(&self, c: &Chromosome) -> (r: usize)
        requires
            self.well_formed(),
            self.options.perform_crowding,
            self.options.neighbourly(),
            is_permutation(c.jobs@, self.makespan.instance@.jobs),
        ensures
            r < self.population.len(),
            exists|q: int|
                {
                    &&& #[trigger] is_weakest(
                        nearest(
                            self.options.distance_metric,
                            *c,
                            self.population@,
                            self.options.k_nearest as int,
                        ),
                        self.population@,
                        q,
                    )
                    &&& r == nearest(
                        self.options.distance_metric,
                        *c,
                        self.population@,
                        self.options.k_nearest as int,
                    )[q].0
                },
    {
        proof {
            lemma_partial_length(c.jobs@, self.makespan.instance@.jobs);
        }
        nearest_rival(
            c,
            self.population.as_slice(),
            self.options.k_nearest,
            self.options.distance_metric,
        )
    }

    /// Puts the evaluated child `c` into the ordered population in place
    /// of the chromosome at `at`.
    pub fn put_in_place(&mut self, at: usize, c: Chromosome)
        requires
            old(self).well_formed(),
            ascending_makespans(old(self).population@),
            at < old(self).population.len(),
            is_permutation(c.jobs@, old(self).makespan.instance@.jobs),
            c.evaluated(old(self).makespan.instance@),
        ensures
            final(self).well_formed(),
            final(self).continues(old(self)),
            takes_place(old(self).population@, at as int, c, final(self).population@),
            c.makespan.unwrap() <= old(self).population@[at as int].makespan.unwrap()
                ==> not_worse(final(self).population@, old(self).population@),
            final(self).mating_pool == old(self).mating_pool,
            final(self).makespan == old(self).makespan,
            final(self).bandit == old(self).bandit,
            final(self).best_makespan == old(self).best_makespan,
            final(self).iteration == old(self).iteration,
            final(self).non_improvement_counter == old(self).non_improvement_counter,
    {
        let ghost inst = self.makespan.instance@;
        let ghost start = self.population@;
        assert(start[at as int].evaluated(inst));
        swap_in(&mut self.population, at, c);
        proof {
            let after = self.population@;
            assert forall|i: int| 0 <= i < after.len() implies is_permutation(
                (#[trigger] after[i]).jobs@,
                inst.jobs,
            ) && after[i].evaluated(inst) by {
                if after[i] != c {
                    let k = choose|k: int| 0 <= k < start.len() && start[k] == after[i];
                    assert(is_permutation(start[k].jobs@, inst.jobs));
                }
            }
        }
    }

    /// Settles the competition of the evaluated child `c` with its rival at
    /// `at`, which a lot has decided: `c` takes the place of the rival
    /// unless the rival has won the lot and their makespans differ. This is
    /// the competition of probabilistic crowding, for which the caller
    /// draws the lot.
    pub fn settle_place(&mut self, at: usize, c: Chromosome, rival_wins: bool)
        requires
            old(self).well_formed(),
            ascending_makespans(old(self).population@),
            at < old(self).population.len(),
            is_permutation(c.jobs@, old(self).makespan.instance@.jobs),
            c.evaluated(old(self).makespan.instance@),
        ensures
            final(self).well_formed(),
            final(self).continues(old(self)),
            if !rival_wins || old(self).population@[at as int].makespan == c.makespan {
                takes_place(old(self).population@, at as int, c, final(self).population@)
            } else {
                final(self).population@ == old(self).population@
            },
            ascending_makespans(final(self).population@),
            final(self).mating_pool == old(self).mating_pool,
            final(self).makespan == old(self).makespan,
            final(self).bandit == old(self).bandit,
            final(self).best_makespan == old(self).best_makespan,
            final(self).iteration == old(self).iteration,
            final(self).non_improvement_counter == old(self).non_improvement_counter,
    {
        let same: bool = self.population[at].makespan.unwrap() == c.makespan.unwrap();
        if !rival_wins || same {
            self.put_in_place(at, c);
        }
    }

    /// Takes note of two evaluated children before they compete: if one of
    /// them is better than the best of the ordered population, the count
    /// of generations without improvement falls to 0 and the record gets a
    /// line with the lower of their makespans; if not, the count rises by
    /// one.
    pub fn note_pair(&mut self, c1: &Chromosome, c2: &Chromosome)
        requires
            old(self).well_formed(),
            c1.makespan.is_some(),
            c2.makespan.is_some(),
        ensures
            final(self).well_formed(),
            final(self).continues(old(self)),
            recorded(
                old(self).best_makespan@,
                old(self).non_improvement_counter,
                old(self).iteration,
                old(self).makespan.count,
                c1.makespan.unwrap() < old(self).population@[0].makespan.unwrap()
                    || c2.makespan.unwrap() < old(self).population@[0].makespan.unwrap(),
                if c1.makespan.unwrap() <= c2.makespan.unwrap() {
                    c1.makespan.unwrap() as int
                } else {
                    c2.makespan.unwrap() as int
                },
                final(self).best_makespan@,
                final(self).non_improvement_counter,
            ),
            final(self).population == old(self).population,
            final(self).mating_pool == old(self).mating_pool,
            final(self).makespan == old(self).makespan,
            final(self).bandit == old(self).bandit,
            final(self).iteration == old(self).iteration,
    {
        let first: u32 = self.population[0].makespan.unwrap();
        if c1.makespan.unwrap() < first || c2.makespan.unwrap() < first {
            self.non_improvement_counter = 0;
            self.best_makespan.push(
                Improvement {
                    iteration: self.iteration,
                    makespan: lower(c1.makespan.unwrap(), c2.makespan.unwrap()),
                    evaluations: self.makespan.count,
                },
            );
        } else if self.non_improvement_counter < usize::MAX {
            self.non_improvement_counter += 1;
        }
    }

    /// Counts one generation more.
    pub fn advance(&mut self)
        ensures
            *final(self) == (GA { iteration: next_after(old(self).iteration), ..*old(self) }),
    {
        if self.iteration < usize::MAX {
            self.iteration += 1;
        }
    }

    /// Lets the evaluated child `c` compete for a place in the ordered
    /// population. With crowding its rival is the worst of its nearest
    /// neighbours, and `c` takes the rival's place unless it is worse.
    /// Without crowding `c` takes the place of the worst chromosome if it
    /// is better and the population does not hold its job order yet.
    pub fn replace_with(&mut self, c: Chromosome)
        requires
            old(self).well_formed(),
            old(self).options.perform_crowding ==> old(self).options.neighbourly(),
            ascending_makespans(old(self).population@),
            is_permutation(c.jobs@, old(self).makespan.instance@.jobs),
            c.evaluated(old(self).makespan.instance@),
        ensures
            final(self).well_formed(),
            final(self).continues(old(self)),
            ascending_makespans(final(self).population@),
            not_worse(final(self).population@, old(self).population@),
            competed(old(self).options, old(self).population@, c, final(self).population@),
            final(self).mating_pool == old(self).mating_pool,
            final(self).makespan == old(self).makespan,
            final(self).bandit == old(self).bandit,
            final(self).best_makespan == old(self).best_makespan,
            final(self).iteration == old(self).iteration,
            final(self).non_improvement_counter == old(self).non_improvement_counter,
    {
        let ghost inst = self.makespan.instance@;
        let ghost start = self.population@;
        let ghost dtype = self.options.distance_metric;
        let ghost k = self.options.k_nearest as int;
        let ghost mut q: int = 0;
        proof {
            lemma_not_worse_reordered(start, start);
        }
        let place: Option<usize> = if self.options.perform_crowding {
            let found = k_nearest_replacement(
                &c,
                self.population.as_slice(),
                self.options.k_nearest,
                self.options.distance_metric,
                &mut self.rng,
            );
            proof {
                q = choose|q: int|
                    {
                        &&& #[trigger] is_weakest(nearest(dtype, c, start, k), start, q)
                        &&& found == if c.makespan.unwrap() <= start[nearest(
                            dtype,
                            c,
                            start,
                            k,
                        )[q].0 as int].makespan.unwrap() {
                            Some(nearest(dtype, c, start, k)[q].0 as usize)
                        } else {
                            None
                        }
                    };
            }
            found
        } else {
            let last: usize = self.population.len() - 1;
            if c.makespan.unwrap() < self.population[last].makespan.unwrap() && !holds_order(
                &self.population,
                &c.jobs,
            ) {
                Some(last)
            } else {
                None
            }
        };
        match place {
            Some(at) => {
                self.put_in_place(at, c);
            },
            None => {},
        }
        proof {
            if self.options.perform_crowding {
                assert(crowded_in(dtype, k, start, c, self.population@, q));
            }
        }
    }

    /// Two parents, chosen by tournaments, breed two children, which are
    /// mutated, improved and evaluated as the settings say.
    #[verifier::rlimit(40)]
    pub fn breed_pair(&mut self) -> (r: (Chromosome, Chromosome))
        requires
            old(self).well_formed(),
        ensures
            final(self).well_formed(),
            final(self).continues(old(self)),
            is_permutation(r.0.jobs@, old(self).makespan.instance@.jobs),
            is_permutation(r.1.jobs@, old(self).makespan.instance@.jobs),
            r.0.evaluated(old(self).makespan.instance@),
            r.1.evaluated(old(self).makespan.instance@),
            is_pair_bred(
                old(self).population@,
                seq![r.0, r.1],
                old(self).options,
                old(self).makespan.instance@,
            ),
            final(self).population == old(self).population,
            final(self).mating_pool == old(self).mating_pool,
            final(self).best_makespan == old(self).best_makespan,
            final(self).iteration == old(self).iteration,
            final(self).non_improvement_counter == old(self).non_improvement_counter,
    {
        let ghost inst = self.makespan.instance@;
        let ghost pop = self.population@;
        let p1 = self.tournament();
        let p2 = self.tournament();
        let (mut c1, mut c2) = crossover_by(
            self.options.xover_type,
            &mut self.bandit,
            &p1,
            &p2,
            &mut self.makespan,
            &mut self.rng,
        );
        let ghost parents = seq![p1, p2];
        let ghost bred = seq![c1, c2];
        let first: bool = chance(&mut self.rng, self.options.mutation_prob, PER_MILLE);
        if first {
            mutate_by(self.options.mutation_type, &mut c1, &mut self.makespan, &mut self.rng);
        }
        let second: bool = chance(&mut self.rng, self.options.mutation_prob, PER_MILLE);
        if second {
            mutate_by(self.options.mutation_type, &mut c2, &mut self.makespan, &mut self.rng);
        }
        let ghost mutated = seq![c1, c2];
        if self.options.local_search {
            ls_ig(&mut c1, &mut self.makespan, self.options.approx_calc as u32, &mut self.rng);
            ls_ig(&mut c2, &mut self.makespan, self.options.approx_calc as u32, &mut self.rng);
        }
        let ghost searched = seq![c1, c2];
        proof {
            lemma_partial_length(c1.jobs@, inst.jobs);
        }
        if c1.updated {
            c1.makespan(&mut self.makespan);
        }
        if c2.updated {
            c2.makespan(&mut self.makespan);
        }
        proof {
            let kids = seq![c1, c2];
            assert(is_copy_of(parents[0], pop));
            assert(is_copy_of(parents[1], pop));
            assert(self.options.mutation_prob == 0 ==> mutated =~= bred);
            assert(!self.options.local_search ==> searched =~= mutated);
            assert(pair_steps(pop, parents, bred, mutated, searched, kids, self.options, inst));
        }
        (c1, c2)
    }

    /// One step of the steady-state scheme: the response to stagnation;
    /// then two children are bred and compete for places in the
    /// population. If a child is better than the best of the population, a
    /// line is added to the record.
    pub fn steady_state_step(&mut self)
        requires
            old(self).well_formed(),
            old(self).options.perform_crowding ==> old(self).options.neighbourly(),
            ascending_makespans(old(self).population@),
        ensures
            final(self).well_formed(),
            final(self).continues(old(self)),
            ascending_makespans(final(self).population@),
            kept_count(old(self).options.pop_size as nat, old(self).options.allways_keep) >= 1
                ==> not_worse(final(self).population@, old(self).population@),
            old(self).stepped(final(self)),
            final(self).iteration == next_after(old(self).iteration),
            extends(final(self).best_makespan@, old(self).best_makespan@),
            final(self).best_makespan@.len() <= old(self).best_makespan@.len() + 1,
    {
        let ghost start = self.population@;
        self.respond_to_stagnation();
        let ghost responded = self.population@;
        let (c1, c2) = self.breed_pair();
        let ghost kids = seq![c1, c2];
        self.note_pair(&c1, &c2);
        self.replace_with(c1);
        let ghost middle = self.population@;
        self.replace_with(c2);
        self.advance();
        proof {
            lemma_not_worse_chain(self.population@, middle, responded);
            if kept_count(self.options.pop_size as nat, self.options.allways_keep) >= 1 {
                lemma_not_worse_chain(self.population@, responded, start);
            }
            assert(old(self).step_taken(self, responded, kids, middle));
        }
    }

    /// Runs the steady-state scheme: the population is ordered by makespan,
    /// then as many steps follow as the settings say, and the record is
    /// closed.
    pub fn run_steady_state(&mut self)
        requires
            old(self).well_formed(),
            old(self).options.perform_crowding ==> old(self).options.neighbourly(),
        ensures
            final(self).well_formed(),
            final(self).continues(old(self)),
            ascending_makespans(final(self).population@),
            kept_count(old(self).options.pop_size as nat, old(self).options.allways_keep) >= 1
                ==> not_worse(final(self).population@, old(self).population@),
            final(self).closes_run_of(old(self)),
            final(self).ran_steps(old(self)),
    {
        let ghost inst = self.makespan.instance@;
        let ghost start = self.population@;
        let ghost record = self.best_makespan@;
        sort_population(&mut self.population);
        let ghost mut states: Seq<GA> = seq![*self];
        proof {
            lemma_reordered_evaluated(self.population@, start, inst);
            lemma_not_worse_reordered(self.population@, start);
        }
        let mut round: usize = 0;
        while round < self.options.iterations
            invariant
                self.well_formed(),
                states.len() == round + 1,
                states[0] == (GA { population: states[0].population, ..*old(self) }),
                ordered_from(old(self).population@, states[0].population@),
                states.last() == *self,
                is_step_chain(states),
                self.continues(old(self)),
                round <= self.options.iterations,
                start == old(self).population@,
                record == old(self).best_makespan@,
                extends(self.best_makespan@, record),
                self.iteration == moved_on(old(self).iteration, round),
                ascending_makespans(self.population@),
                self.options.perform_crowding ==> self.options.neighbourly(),
                kept_count(self.options.pop_size as nat, self.options.allways_keep) >= 1
                    ==> not_worse(self.population@, start),
            decreases self.options.iterations - round,
        {
            let ghost before = self.population@;
            let ghost so_far = states;
            self.steady_state_step();
            proof {
                if kept_count(self.options.pop_size as nat, self.options.allways_keep) >= 1 {
                    lemma_not_worse_chain(self.population@, before, start);
                }
                states = so_far.push(*self);
                assert forall|k: int| 0 <= k < states.len() - 1 implies (
                #[trigger] states[k]).stepped(&states[k + 1]) by {
                    if k < so_far.len() - 1 {
                        assert(states[k] == so_far[k]);
                        assert(states[k + 1] == so_far[k + 1]);
                    } else {
                        assert(states[k] == so_far.last());
                    }
                }
                assert(states[0] == so_far[0]);
            }
            round += 1;
        }
        let ghost reached = self.best_makespan@;
        self.final_makespan();
        proof {
            assert(self.ends_steps(old(self), states));
            assert(self.best_makespan@.len() == reached.len() + 1);
            assert forall|i: int| 0 <= i < record.len() implies #[trigger] self.best_makespan@[i]
                == record[i] by {
                assert(self.best_makespan@[i] == reached[i]);
            }
        }
    }
}

} // verus!
