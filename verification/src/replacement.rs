//! Replacement: when the search stalls, the worse part of the population
//! makes way for new chromosomes.

use crate::chromosome::Chromosome;
use crate::gch::{construct, is_greedy_schedule};
use crate::makespan::{add_count, Makespan};
use crate::mutation::{is_mutant, Greedy, Mutation, Reverse, Swap, MTYPE, SHIFT};
use crate::params::PER_MILLE;
use crate::permutation::is_permutation;
use crate::random::draw_below;
use rand::rngs::StdRng;
use vstd::prelude::*;

verus! {

/// The kinds of replacement.
#[derive(Clone, Copy, Debug)]
pub enum RTYPE {
    Random,
    GCH,
    Mutate,
    NoReplacement,
}

/// The number of chromosomes, counted from the front, that a replacement
/// keeps: `keep` thousandths of the population, rounded down.
pub open spec fn kept_count(size: nat, keep: u32) -> nat {
    (size * keep / 1000) as nat
}

/// Every chromosome of `pop` is a permutation of the jobs `0..jobs`.
pub open spec fn all_permutations(pop: Seq<Chromosome>, jobs: nat) -> bool {
    forall|i: int| 0 <= i < pop.len() ==> is_permutation((#[trigger] pop[i]).jobs@, jobs)
}

/// What every replacement asks for: a sound engine, a population that is
/// not too large, of permutations that are marked as changed unless they
/// carry their true makespan, and a `keep` that is a share.
pub open spec fn replaceable(pop: Seq<Chromosome>, keep: u32, m: Makespan) -> bool {
    &&& m.instance@.well_formed()
    &&& all_permutations(pop, m.instance@.jobs)
    &&& forall|i: int|
        0 <= i < pop.len() ==> (#[trigger] pop[i]).updated || pop[i].evaluated(m.instance@)
    &&& pop.len() <= u32::MAX
    &&& keep <= PER_MILLE
}

/// What every replacement leaves behind: a population of the same size,
/// again of permutations, whose kept part is as it was.
pub open spec fn replaced(
    before: Seq<Chromosome>,
    after: Seq<Chromosome>,
    keep: u32,
    inst: crate::instance::InstanceView,
) -> bool {
    &&& after.len() == before.len()
    &&& all_permutations(after, inst.jobs)
    &&& forall|i: int| 0 <= i < kept_count(before.len(), keep) ==> #[trigger] after[i] == before[i]
    &&& forall|i: int|
        kept_count(before.len(), keep) <= i < after.len() ==> (#[trigger] after[i]).updated
            || after[i].evaluated(inst)
}

/// From place `from` on every chromosome of `after` is marked as changed
/// and carries no makespan.
pub open spec fn fresh_from(after: Seq<Chromosome>, from: int) -> bool {
    forall|i: int|
        from <= i < after.len() ==> (#[trigger] after[i]).updated && after[i].makespan.is_none()
}

/// From place `from` on every chromosome of `after` is a greedily built
/// schedule that carries its true makespan.
pub open spec fn built_from(
    after: Seq<Chromosome>,
    from: int,
    inst: crate::instance::InstanceView,
) -> bool {
    forall|i: int|
        from <= i < after.len() ==> (#[trigger] after[i]).evaluated(inst) && is_greedy_schedule(
            inst,
            after[i].jobs@,
        )
}

/// The place up to which the mutants stand when `keep` thousandths of
/// `size` chromosomes are kept: half way from the kept ones to the end, or,
/// if none is kept, nowhere.
pub open spec fn mutants_end(size: nat, keep: u32) -> nat {
    if kept_count(size, keep) == 0 {
        0
    } else {
        (kept_count(size, keep) + (size - kept_count(size, keep)) / 2) as nat
    }
}

/// `c` is what a mutation of a kind drawn at random can make of the job
/// order of one of the first `kept` chromosomes of `before`.
pub open spec fn is_mutant_of_kept(
    before: Seq<Chromosome>,
    kept: int,
    c: Chromosome,
    inst: crate::instance::InstanceView,
) -> bool {
    exists|source: int|
        0 <= source < kept && is_mutant(
            MTYPE::Random,
            (#[trigger] before[source]).jobs@,
            None,
            c,
            inst,
        )
}

/// From place `lo` up to place `hi` every chromosome of `after` is a mutant
/// of one of the first `lo` chromosomes of `before`.
pub open spec fn mutants_between(
    before: Seq<Chromosome>,
    after: Seq<Chromosome>,
    lo: int,
    hi: int,
    inst: crate::instance::InstanceView,
) -> bool {
    forall|i: int| lo <= i < hi ==> is_mutant_of_kept(before, lo, #[trigger] after[i], inst)
}

/// What the replacement of kind `kind` puts behind the kept chromosomes:
/// random permutations, greedily built schedules, mutants of kept ones
/// followed by random permutations, or what was there.
pub open spec fn renewed(
    kind: RTYPE,
    before: Seq<Chromosome>,
    after: Seq<Chromosome>,
    keep: u32,
    inst: crate::instance::InstanceView,
) -> bool {
    match kind {
        RTYPE::Random => fresh_from(after, kept_count(before.len(), keep) as int),
        RTYPE::GCH => built_from(after, kept_count(before.len(), keep) as int, inst),
        RTYPE::Mutate => {
            &&& mutants_between(
                before,
                after,
                kept_count(before.len(), keep) as int,
                mutants_end(before.len(), keep) as int,
                inst,
            )
            &&& fresh_from(after, mutants_end(before.len(), keep) as int)
        },
        RTYPE::NoReplacement => after == before,
    }
}

/// A replacement scheme.
pub trait Replacement {
    /// The scheme can work on `jobs` jobs.
    spec fn accepts(jobs: nat) -> bool;

    /// Replaces the chromosomes of `population` behind the first `keep`
    /// thousandths.
    fn replace(population: &mut Vec<Chromosome>, keep: u32, m: &mut Makespan, rng: &mut StdRng)
        requires
            replaceable(old(population)@, keep, *old(m)),
            Self::accepts(old(m).instance@.jobs),
        ensures
            replaced(old(population)@, final(population)@, keep, old(m).instance@),
            final(m).instance == old(m).instance,
            final(m).count >= old(m).count,
    ;
}

/// New chromosomes are random permutations.
pub struct Random;

/// New chromosomes are built by the greedy construction heuristic.
pub struct GCH;

/// One half of the new chromosomes are mutants of kept ones, the other half
/// random permutations.
pub struct Mutate;

/// Nothing is replaced.
pub struct NoReplacement;

/// The number of chromosomes that a replacement keeps.
pub fn always_keep(size: usize, keep: u32) -> (r: usize)
    requires
        size <= u32::MAX,
        keep <= PER_MILLE,
    ensures
        r == kept_count(size as nat, keep),
        r <= size,
{
    assert(size * keep <= u32::MAX * 1000) by (nonlinear_arith)
        requires
            0 <= size <= u32::MAX,
            0 <= keep <= 1000,
    ;
    assert(size * keep / 1000 <= size) by (nonlinear_arith)
        requires
            0 <= size,
            0 <= keep <= 1000,
    ;
    let kept: u64 = (size as u64) * (keep as u64) / 1000;
    kept as usize
}

/// Applies a mutation of a kind drawn at random.
pub fn mutate_at_random(c: &mut Chromosome, m: &mut Makespan, rng: &mut StdRng)
    requires
        crate::mutation::mutable(*old(c), *old(m)),
        old(m).instance@.jobs >= 2,
    ensures
        crate::mutation::mutated(*final(c), old(m).instance@),
        is_mutant(MTYPE::Random, old(c).jobs@, old(c).makespan, *final(c), old(m).instance@),
        final(m).instance == old(m).instance,
        final(m).count >= old(m).count,
{
    let kind = draw_below(rng, 4);
    if kind == 0 {
        SHIFT::apply(c, m, rng);
    } else if kind == 1 {
        Reverse::apply(c, m, rng);
    } else if kind == 2 {
        Swap::apply(c, m, rng);
    } else {
        Greedy::apply(c, m, rng);
    }
}

/// Applies the mutation of the given kind.
pub fn mutate_by(kind: MTYPE, c: &mut Chromosome, m: &mut Makespan, rng: &mut StdRng)
    requires
        crate::mutation::mutable(*old(c), *old(m)),
        kind is Swap || kind is Greedy || kind is Random ==> old(m).instance@.jobs >= 2,
    ensures
        crate::mutation::mutated(*final(c), old(m).instance@),
        is_mutant(kind, old(c).jobs@, old(c).makespan, *final(c), old(m).instance@),
        kind is Shift || kind is Reverse || kind is Swap ==> *final(m) == *old(m),
        kind is Greedy ==> final(m).count == add_count(old(m).count, old(m).instance@.jobs),
        final(m).instance == old(m).instance,
        final(m).count >= old(m).count,
{
    match kind {
        MTYPE::Shift => SHIFT::apply(c, m, rng),
        MTYPE::Reverse => Reverse::apply(c, m, rng),
        MTYPE::Swap => Swap::apply(c, m, rng),
        MTYPE::Greedy => Greedy::apply(c, m, rng),
        MTYPE::Random => mutate_at_random(c, m, rng),
    }
}

impl Replacement for Random {
    /// Any number of jobs will do.
    open spec fn accepts(jobs: nat) -> bool {
        true
    }

    /// Every chromosome behind the kept ones becomes a random permutation
    /// that is not evaluated.
    fn replace(population: &mut Vec<Chromosome>, keep: u32, m: &mut Makespan, rng: &mut StdRng)
        ensures
            renewed(RTYPE::Random, old(population)@, final(population)@, keep, old(m).instance@),
            *final(m) == *old(m),
    {
        let kept = always_keep(population.len(), keep);
        let mut index: usize = kept;
        while index < population.len()
            invariant
                kept <= index <= population.len(),
                population.len() == old(population).len(),
                *m == *old(m),
                all_permutations(population@, m.instance@.jobs),
                forall|i: int| 0 <= i < kept ==> #[trigger] population@[i] == old(population)@[i],
                forall|i: int|
                    kept <= i < index ==> (#[trigger] population@[i]).updated
                        && population@[i].makespan.is_none(),
            decreases population.len() - index,
        {
            let new_c = Chromosome::new(&m.instance, rng);
            population[index] = new_c;
            index += 1;
        }
    }
}

impl Replacement for GCH {
    /// Any number of jobs will do.
    open spec fn accepts(jobs: nat) -> bool {
        true
    }

    /// Every chromosome behind the kept ones is built anew by the greedy
    /// construction heuristic.
    fn replace(population: &mut Vec<Chromosome>, keep: u32, m: &mut Makespan, rng: &mut StdRng)
        ensures
            renewed(RTYPE::GCH, old(population)@, final(population)@, keep, old(m).instance@),
    {
        let kept = always_keep(population.len(), keep);
        let mut index: usize = kept;
        while index < population.len()
            invariant
                kept <= index <= population.len(),
                population.len() == old(population).len(),
                m.instance == old(m).instance,
                m.instance@.well_formed(),
                m.count >= old(m).count,
                all_permutations(population@, m.instance@.jobs),
                forall|i: int| 0 <= i < kept ==> #[trigger] population@[i] == old(population)@[i],
                forall|i: int|
                    kept <= i < index ==> (#[trigger] population@[i]).evaluated(m.instance@)
                        && is_greedy_schedule(m.instance@, population@[i].jobs@),
            decreases population.len() - index,
        {
            let new_c = construct(m, rng);
            population[index] = new_c;
            index += 1;
        }
    }
}

impl Replacement for Mutate {
    /// Mutations may need two jobs.
    open spec fn accepts(jobs: nat) -> bool {
        jobs >= 2
    }

    /// Of the chromosomes behind the kept ones the first half become
    /// mutants of kept ones drawn at random, the others random permutations.
    /// If none is kept, all become random permutations.
    fn replace(population: &mut Vec<Chromosome>, keep: u32, m: &mut Makespan, rng: &mut StdRng)
        ensures
            renewed(RTYPE::Mutate, old(population)@, final(population)@, keep, old(m).instance@),
    {
        let ghost inst = m.instance@;
        let ghost before = population@;
        let popsize: usize = population.len();
        let kept = always_keep(popsize, keep);
        let half: usize = if kept == 0 {
            kept
        } else {
            kept + (popsize - kept) / 2
        };
        assert(half == mutants_end(popsize as nat, keep));
        let mut index: usize = kept;
        while index < half
            invariant
                1 <= kept <= index <= half <= popsize || (kept == 0 && index == 0 && half == 0),
                popsize == population.len(),
                before == old(population)@,
                population.len() == old(population).len(),
                inst == m.instance@,
                m.instance == old(m).instance,
                m.instance@.well_formed(),
                m.instance@.jobs >= 2,
                m.count >= old(m).count,
                all_permutations(population@, m.instance@.jobs),
                forall|i: int| 0 <= i < kept ==> #[trigger] population@[i] == before[i],
                forall|i: int| index <= i < popsize ==> #[trigger] population@[i] == before[i],
                forall|i: int|
                    kept <= i < index ==> (#[trigger] population@[i]).updated
                        || population@[i].evaluated(m.instance@),
                mutants_between(before, population@, kept as int, index as int, inst),
            decreases half - index,
        {
            let ghost so_far = population@;
            let source = draw_below(rng, kept);
            let jobs = population[source].jobs.clone();
            assert(jobs@ =~= before[source as int].jobs@);
            let mut new_c = Chromosome { jobs, makespan: None, updated: true };
            mutate_at_random(&mut new_c, m, rng);
            assert(is_mutant_of_kept(before, kept as int, new_c, inst));
            population[index] = new_c;
            assert forall|i: int| kept <= i < index + 1 implies is_mutant_of_kept(
                before,
                kept as int,
                #[trigger] population@[i],
                inst,
            ) by {
                if i < index {
                    assert(population@[i] == so_far[i]);
                }
            }
            index += 1;
        }
        while index < popsize
            invariant
                kept <= half <= index <= popsize,
                popsize == population.len(),
                before == old(population)@,
                population.len() == old(population).len(),
                inst == m.instance@,
                m.instance == old(m).instance,
                m.count >= old(m).count,
                all_permutations(population@, m.instance@.jobs),
                forall|i: int| 0 <= i < kept ==> #[trigger] population@[i] == before[i],
                forall|i: int|
                    kept <= i < half ==> (#[trigger] population@[i]).updated
                        || population@[i].evaluated(m.instance@),
                forall|i: int|
                    half <= i < index ==> (#[trigger] population@[i]).updated
                        && population@[i].makespan.is_none(),
                mutants_between(before, population@, kept as int, half as int, inst),
            decreases popsize - index,
        {
            let ghost so_far = population@;
            let new_c = Chromosome::new(&m.instance, rng);
            population[index] = new_c;
            assert forall|i: int| kept <= i < half implies is_mutant_of_kept(
                before,
                kept as int,
                #[trigger] population@[i],
                inst,
            ) by {
                assert(population@[i] == so_far[i]);
            }
            index += 1;
        }
    }
}

impl Replacement for NoReplacement {
    /// Any number of jobs will do.
    open spec fn accepts(jobs: nat) -> bool {
        true
    }

    /// Leaves the population as it is.
    fn replace(
        _population: &mut Vec<Chromosome>,
        _keep: u32,
        _m: &mut Makespan,
        _rng: &mut StdRng,
    )
        ensures
            renewed(
                RTYPE::NoReplacement,
                old(_population)@,
                final(_population)@,
                _keep,
                old(_m).instance@,
            ),
            *final(_population) == *old(_population),
            *final(_m) == *old(_m),
    {
    }
}

/// Applies the replacement of the given kind.
pub fn replace_by(
    kind: RTYPE,
    population: &mut Vec<Chromosome>,
    keep: u32,
    m: &mut Makespan,
    rng: &mut StdRng,
)
    requires
        replaceable(old(population)@, keep, *old(m)),
        kind is Mutate ==> old(m).instance@.jobs >= 2,
    ensures
        replaced(old(population)@, final(population)@, keep, old(m).instance@),
        renewed(kind, old(population)@, final(population)@, keep, old(m).instance@),
        kind is Random || kind is NoReplacement ==> *final(m) == *old(m),
        final(m).instance == old(m).instance,
        final(m).count >= old(m).count,
{
    match kind {
        RTYPE::Random => Random::replace(population, keep, m, rng),
        RTYPE::GCH => GCH::replace(population, keep, m, rng),
        RTYPE::Mutate => Mutate::replace(population, keep, m, rng),
        RTYPE::NoReplacement => NoReplacement::replace(population, keep, m, rng),
    }
}

} // verus!
