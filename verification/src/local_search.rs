//! Local search on a chromosome.

use crate::chromosome::Chromosome;
use crate::iterated_greedy::{is_search, is_search_trail, iterated_greedy, round_size};
use crate::makespan::{add_count, Makespan};
use crate::permutation::is_permutation;
use crate::schedule::makespan_of;
use rand::rngs::StdRng;
use vstd::prelude::*;

verus! {

/// `to` is the best schedule that an iterated greedy search from `from`,
/// whose rounds take two jobs out, has met on its way.
pub open spec fn is_searched(
    inst: crate::instance::InstanceView,
    from: Seq<u32>,
    to: Seq<u32>,
) -> bool {
    exists|trail: Seq<Seq<u32>>| #[trigger] is_search_trail(inst, from, round_size(None), trail, to)
}

/// Every chromosome of `after` carries its true makespan and the best
/// schedule that a search from the job order at its place in `before` has
/// met; its makespan is not higher than the makespan of that order.
pub open spec fn all_improved(
    before: Seq<Chromosome>,
    after: Seq<Chromosome>,
    inst: crate::instance::InstanceView,
) -> bool {
    forall|i: int|
        0 <= i < after.len() ==> (#[trigger] after[i]).evaluated(inst) && makespan_of(
            inst,
            after[i].jobs@,
        ) <= makespan_of(inst, before[i].jobs@) && is_searched(
            inst,
            before[i].jobs@,
            after[i].jobs@,
        )
}

/// Improves `chromosome` by an iterated greedy search of about `approx_calc`
/// simulations, whose rounds take two jobs out. The chromosome comes
/// evaluated with the best schedule that the search has met, and its
/// makespan is not higher than that of the order before.
pub fn ls_ig(
    chromosome: &mut Chromosome,
    makespan: &mut Makespan,
    approx_calc: u32,
    rng: &mut StdRng,
)
    requires
        old(makespan).instance@.well_formed(),
        old(makespan).instance@.jobs > 2,
        is_permutation(old(chromosome).jobs@, old(makespan).instance@.jobs),
    ensures
        is_permutation(final(chromosome).jobs@, old(makespan).instance@.jobs),
        final(chromosome).evaluated(old(makespan).instance@),
        makespan_of(old(makespan).instance@, final(chromosome).jobs@) <= makespan_of(
            old(makespan).instance@,
            old(chromosome).jobs@,
        ),
        is_searched(old(makespan).instance@, old(chromosome).jobs@, final(chromosome).jobs@),
        exists|trail: Seq<Seq<u32>>, readings: Seq<u32>|
            #[trigger] is_search(
                old(makespan).instance@,
                old(chromosome).jobs@,
                round_size(None),
                approx_calc,
                add_count(old(makespan).count, 1),
                final(makespan).count,
                trail,
                readings,
                final(chromosome).jobs@,
            ),
        final(makespan).instance == old(makespan).instance,
        final(makespan).count >= add_count(old(makespan).count, (approx_calc + 2) as nat),
{
    let jobs = chromosome.jobs.clone();
    assert(jobs@ =~= chromosome.jobs@);
    let (before, _) = makespan.makespan(&chromosome.jobs);
    let original_schedule: Option<(Vec<u32>, u32)> = Some((jobs, before));
    let new_schedule = iterated_greedy(makespan, original_schedule, approx_calc, None, rng);
    chromosome.jobs = new_schedule.0;
    chromosome.makespan = Some(new_schedule.1);
    chromosome.updated = false;
}

} // verus!
