//! Crossovers: two parents give two children.

pub mod bandit;
pub mod block;
pub mod order;
pub mod pmx;

use crate::chromosome::Chromosome;
use crate::crossover::block::{block_size, is_block_pair, BCBX};
use crate::crossover::order::{is_single_cut_pair, is_two_cut_pair, SB2OX, SJ2OX};
use crate::crossover::pmx::{is_pmx_pair, PMX};
use crate::instance::InstanceView;
use crate::makespan::Makespan;
use crate::permutation::is_permutation;
use rand::rngs::StdRng;
use vstd::prelude::*;

verus! {

/// The kinds of crossover.
#[derive(Clone, Copy, Debug)]
pub enum XTYPE {
    SJ2OX,
    SB2OX,
    BCBX,
    PMX,
    /// One of the four operators, drawn anew each time.
    Random,
    /// The operator that the bandit picks.
    QLearning,
}

/// What every crossover asks for: a sound engine and two permutations of
/// its jobs.
pub open spec fn crossable(p1: Chromosome, p2: Chromosome, m: Makespan) -> bool {
    &&& m.instance@.well_formed()
    &&& is_permutation(p1.jobs@, m.instance@.jobs)
    &&& is_permutation(p2.jobs@, m.instance@.jobs)
}

/// What every crossover gives: a permutation that is either marked as
/// changed or carries its true makespan.
pub open spec fn bred(c: Chromosome, inst: InstanceView) -> bool {
    &&& is_permutation(c.jobs@, inst.jobs)
    &&& c.updated || c.evaluated(inst)
}

/// `c` is marked as changed and carries no makespan.
pub open spec fn fresh(c: Chromosome) -> bool {
    c.updated && c.makespan.is_none()
}

/// `c1` and `c2` are job orders that the operator with the number
/// `operator` can breed from `p1` and `p2`: 0 is the order crossover with
/// one cut, 1 the block exchange, 2 the order crossover with two cuts, any
/// other number the partially mapped crossover.
pub open spec fn bred_jobs(
    operator: int,
    k: Option<usize>,
    p1: Seq<u32>,
    p2: Seq<u32>,
    c1: Seq<u32>,
    c2: Seq<u32>,
) -> bool {
    if operator == 0 {
        is_single_cut_pair(k, p1, p2, c1, c2)
    } else if operator == 1 {
        is_block_pair(k, p1, p2, c1, c2)
    } else if operator == 2 {
        is_two_cut_pair(p1, p2, c1, c2)
    } else {
        is_pmx_pair(p1, p2, c1, c2)
    }
}

/// One of the four operators can breed `c1` and `c2` from `p1` and `p2`.
pub open spec fn bred_by_some(p1: Seq<u32>, p2: Seq<u32>, c1: Seq<u32>, c2: Seq<u32>) -> bool {
    exists|operator: int| 0 <= operator < 4 && #[trigger] bred_jobs(operator, None, p1, p2, c1, c2)
}

/// `c1` and `c2` are job orders that the crossover of kind `kind` can breed
/// from `p1` and `p2`.
pub open spec fn offspring(
    kind: XTYPE,
    p1: Seq<u32>,
    p2: Seq<u32>,
    c1: Seq<u32>,
    c2: Seq<u32>,
) -> bool {
    match kind {
        XTYPE::SJ2OX => bred_jobs(0, None, p1, p2, c1, c2),
        XTYPE::BCBX => bred_jobs(1, None, p1, p2, c1, c2),
        XTYPE::SB2OX => bred_jobs(2, None, p1, p2, c1, c2),
        XTYPE::PMX => bred_jobs(3, None, p1, p2, c1, c2),
        XTYPE::Random => bred_by_some(p1, p2, c1, c2),
        XTYPE::QLearning => bred_by_some(p1, p2, c1, c2),
    }
}

/// The crossover of kind `kind` may exchange blocks of a tenth of the jobs.
pub open spec fn takes_blocks(kind: XTYPE) -> bool {
    kind is BCBX || kind is Random || kind is QLearning
}

/// A crossover operator.
pub trait Crossover {
    /// The operator can work on `jobs` jobs with this `k`.
    spec fn accepts(k: Option<usize>, jobs: nat) -> bool;

    /// Breeds two children from `p1` and `p2`.
    fn apply(
        p1: &Chromosome,
        p2: &Chromosome,
        k: Option<usize>,
        makespan: &mut Makespan,
        rng: &mut StdRng,
    ) -> (r: (Chromosome, Chromosome))
        requires
            crossable(*p1, *p2, *old(makespan)),
            Self::accepts(k, old(makespan).instance@.jobs),
        ensures
            bred(r.0, old(makespan).instance@),
            bred(r.1, old(makespan).instance@),
            final(makespan).instance == old(makespan).instance,
            final(makespan).count >= old(makespan).count,
    ;
}

/// Applies the operator with the given number: 0 is the order crossover
/// with one cut, 1 the block exchange, 2 the order crossover with two cuts,
/// any other number the partially mapped crossover.
pub fn crossover_at(
    operator: usize,
    p1: &Chromosome,
    p2: &Chromosome,
    k: Option<usize>,
    makespan: &mut Makespan,
    rng: &mut StdRng,
) -> (r: (Chromosome, Chromosome))
    requires
        crossable(*p1, *p2, *old(makespan)),
        operator == 0 ==> SJ2OX::accepts(k, old(makespan).instance@.jobs),
        operator == 1 ==> BCBX::accepts(k, old(makespan).instance@.jobs),
        operator >= 3 ==> PMX::accepts(k, old(makespan).instance@.jobs),
    ensures
        bred(r.0, old(makespan).instance@),
        bred(r.1, old(makespan).instance@),
        bred_jobs(operator as int, k, p1.jobs@, p2.jobs@, r.0.jobs@, r.1.jobs@),
        operator == 1 ==> r.0.evaluated(old(makespan).instance@) && r.1.evaluated(
            old(makespan).instance@,
        ),
        operator != 1 ==> fresh(r.0) && fresh(r.1) && *final(makespan) == *old(makespan),
        final(makespan).instance == old(makespan).instance,
        final(makespan).count >= old(makespan).count,
{
    if operator == 0 {
        SJ2OX::apply(p1, p2, k, makespan, rng)
    } else if operator == 1 {
        BCBX::apply(p1, p2, k, makespan, rng)
    } else if operator == 2 {
        SB2OX::apply(p1, p2, k, makespan, rng)
    } else {
        PMX::apply(p1, p2, k, makespan, rng)
    }
}

} // verus!
