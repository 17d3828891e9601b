//! The procedures that solve an instance on their own, behind one
//! interface.

use crate::iterated_greedy::{
    is_search, iterated_greedy, round_size, IteratedGreedy, Options,
};
use crate::makespan::{add_count, tries, Makespan};
use crate::mddr::MDDR;
use crate::neh::{is_neh_schedule, neh_prefix, NEH};
use crate::neh_permutation::{permutation_makespan, NehP};
use crate::params::ITERATIONS;
use crate::permutation::is_permutation;
use crate::random::seeded;
use crate::schedule::{greedy_makespan, makespan_of};
use vstd::prelude::*;

verus! {

/// A procedure that solves the instance of an engine.
pub trait Solver {
    /// The solver can work on `jobs` jobs with these settings.
    spec fn accepts(jobs: nat, options: Option<Options>) -> bool;

    /// Solves the instance and returns the makespan reached.
    fn run(makespan: &mut Makespan, options: Option<Options>) -> (r: u32)
        requires
            old(makespan).instance@.well_formed(),
            Self::accepts(old(makespan).instance@.jobs, options),
        ensures
            final(makespan).instance == old(makespan).instance,
    ;
}

impl Solver for MDDR {
    /// The settings are not looked at.
    open spec fn accepts(jobs: nat, options: Option<Options>) -> bool {
        true
    }

    /// The makespan in the earliest-completion regime.
    fn run(makespan: &mut Makespan, _options: Option<Options>) -> (r: u32)
        ensures
            r == greedy_makespan(old(makespan).instance@),
    {
        let result = MDDR::mddr(makespan);
        result.0
    }
}

impl Solver for NEH {
    /// The settings are not looked at.
    open spec fn accepts(jobs: nat, options: Option<Options>) -> bool {
        true
    }

    /// The makespan of the NEH schedule.
    fn run(makespan: &mut Makespan, _options: Option<Options>) -> (r: u32)
        ensures
            exists|order: Seq<u32>|
                crate::neh::is_neh_order(old(makespan).instance@, order) && r == makespan_of(
                    old(makespan).instance@,
                    #[trigger] neh_prefix(
                        old(makespan).instance@,
                        order,
                        old(makespan).instance@.jobs,
                    ),
                ),
    {
        let ghost inst = makespan.instance@;
        let res = NEH::neh(makespan);
        proof {
            let order = choose|order: Seq<u32>|
                crate::neh::is_neh_order(inst, order) && res.0@ == neh_prefix(
                    inst,
                    order,
                    inst.jobs,
                );
            assert(res.1 == makespan_of(inst, neh_prefix(inst, order, inst.jobs)));
        }
        res.1
    }
}

impl Solver for NehP {
    /// The settings are not looked at.
    open spec fn accepts(jobs: nat, options: Option<Options>) -> bool {
        true
    }

    /// The makespan of the permutation schedule of the NEH order.
    fn run(makespan: &mut Makespan, _options: Option<Options>) -> (r: u32)
        ensures
            exists|order: Seq<u32>|
                crate::neh::is_neh_order(old(makespan).instance@, order) && r
                    == #[trigger] permutation_makespan(old(makespan).instance@, order),
    {
        let res = NehP::neh_p(makespan);
        assert(res.1 == permutation_makespan(makespan.instance@, res.0@));
        res.1
    }
}

impl Solver for IteratedGreedy {
    /// The number of jobs that a round takes out, that of the settings or
    /// two, is below the number of jobs.
    open spec fn accepts(jobs: nat, options: Option<Options>) -> bool {
        &&& options.is_some() ==> options.unwrap().block_size < jobs
        &&& options.is_none() ==> 2 < jobs
    }

    /// The makespan that an iterated greedy search from the NEH schedule
    /// reaches, with a random source of its own.
    fn run(makespan: &mut Makespan, option: Option<Options>) -> (r: u32)
        ensures
            exists|schedule: Seq<u32>|
                is_permutation(schedule, old(makespan).instance@.jobs) && r
                    == #[trigger] makespan_of(old(makespan).instance@, schedule),
            exists|start: Seq<u32>|
                #[trigger] is_neh_schedule(old(makespan).instance@, start) && r <= makespan_of(
                    old(makespan).instance@,
                    start,
                ),
            exists|start: Seq<u32>, trail: Seq<Seq<u32>>, readings: Seq<u32>, found: Seq<u32>|
                is_neh_schedule(old(makespan).instance@, start) && #[trigger] is_search(
                    old(makespan).instance@,
                    start,
                    round_size(option),
                    ITERATIONS as u32,
                    add_count(old(makespan).count, tries(old(makespan).instance@.jobs)),
                    final(makespan).count,
                    trail,
                    readings,
                    found,
                ) && r == makespan_of(old(makespan).instance@, found),
            final(makespan).count >= add_count(
                old(makespan).count,
                (tries(old(makespan).instance@.jobs) + ITERATIONS + 1) as nat,
            ),
    {
        let mut rng = seeded(123);
        let ghost inst = makespan.instance@;
        let ghost begun = makespan.count;
        let result = iterated_greedy(makespan, None, ITERATIONS as u32, option, &mut rng);
        assert(result.1 == makespan_of(makespan.instance@, result.0@));
        proof {
            let (start, trail, readings) = choose|
                start: Seq<u32>,
                trail: Seq<Seq<u32>>,
                readings: Seq<u32>,
            |
                is_neh_schedule(inst, start) && #[trigger] is_search(
                    inst,
                    start,
                    round_size(option),
                    ITERATIONS as u32,
                    add_count(begun, tries(inst.jobs)),
                    makespan.count,
                    trail,
                    readings,
                    result.0@,
                );
            assert(is_search(
                inst,
                start,
                round_size(option),
                ITERATIONS as u32,
                add_count(begun, tries(inst.jobs)),
                makespan.count,
                trail,
                readings,
                result.0@,
            ));
        }
        result.1
    }
}

} // verus!
