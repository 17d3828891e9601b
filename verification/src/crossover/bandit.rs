//! The bandit that chooses among the crossover operators by what they have
//! brought so far.

use crate::chromosome::Chromosome;
use crate::crossover::block::{block_size, BCBX};
use crate::crossover::order::SJ2OX;
use crate::crossover::pmx::PMX;
use crate::crossover::{bred_jobs, crossable, crossover_at, Crossover};
use crate::makespan::Makespan;
use crate::params::PER_MILLE;
use crate::permutation::is_permutation;
use crate::random::{chance, draw_below};
use rand::rngs::StdRng;
use vstd::prelude::*;

verus! {

/// The value that stands for no reward at all: values are kept in
/// thousandths and raised by this much, so that they are never negative.
pub const Q_ZERO: u64 = 4_294_967_296_000;

/// The highest value an operator can have.
pub const Q_TOP: u64 = 8_589_934_592_000;

/// The value of an operator after `reward` was observed: it has moved from
/// `q` towards the reward by `rate` thousandths of the way.
pub open spec fn q_after(q: u64, rate: u32, reward: int) -> int {
    ((1000 - rate) * q + rate * ((reward + 4_294_967_296) * 1000)) / 1000
}

/// The place of the highest of `values`, of several such places the last.
pub open spec fn is_last_maximum(values: Seq<u64>, p: int) -> bool {
    &&& 0 <= p < values.len()
    &&& forall|i: int| 0 <= i < values.len() ==> #[trigger] values[i] <= values[p]
    &&& forall|i: int| p < i < values.len() ==> #[trigger] values[i] < values[p]
}

/// A bandit over the four crossover operators: it keeps a value for each
/// and mostly applies the one with the highest value.
pub struct Qlearning {
    /// The values of the operators, in the numbering of [`crossover_at`].
    pub q_values: Vec<u64>,
    /// How far a value moves towards a reward, in thousandths.
    pub learning_rate: u32,
    /// How often an operator is drawn at random, in thousandths.
    pub epsilon: u32,
}

impl Qlearning {
    /// The bandit has four values within bounds, and its rates are shares.
    pub open spec fn well_formed(&self) -> bool {
        &&& self.q_values@.len() == 4
        &&& forall|i: int| 0 <= i < 4 ==> #[trigger] self.q_values@[i] <= Q_TOP
        &&& self.learning_rate <= PER_MILLE
        &&& self.epsilon <= PER_MILLE
    }

    /// Tells whether the bandit has four values within bounds and rates
    /// that are shares.
    pub fn check(&self) -> (r: bool)
        ensures
            r == self.well_formed(),
    {
        if self.q_values.len() != 4 || self.learning_rate > PER_MILLE || self.epsilon
            > PER_MILLE {
            return false;
        }
        let mut i: usize = 0;
        while i < 4
            invariant
                i <= 4,
                self.q_values@.len() == 4,
                forall|k: int| 0 <= k < i ==> #[trigger] self.q_values@[k] <= Q_TOP,
            decreases 4 - i,
        {
            if self.q_values[i] > Q_TOP {
                return false;
            }
            i += 1;
        }
        true
    }

    /// A bandit that has seen no reward yet.
    pub fn new(learning_rate: u32, epsilon: u32) -> (r: Qlearning)
        requires
            learning_rate <= PER_MILLE,
            epsilon <= PER_MILLE,
        ensures
            r.well_formed(),
            r.q_values@ == seq![Q_ZERO, Q_ZERO, Q_ZERO, Q_ZERO],
            r.learning_rate == learning_rate,
            r.epsilon == epsilon,
    {
        Qlearning { q_values: vec![Q_ZERO, Q_ZERO, Q_ZERO, Q_ZERO], learning_rate, epsilon }
    }

    /// The operator with the highest value, of several such the last.
    pub fn favourite(&self) -> (r: usize)
        requires
            self.well_formed(),
        ensures
            is_last_maximum(self.q_values@, r as int),
    {
        let mut best: usize = 0;
        let mut i: usize = 1;
        while i < 4
            invariant
                1 <= i <= 4,
                self.q_values@.len() == 4,
                best < i,
                forall|j: int| 0 <= j < i ==> #[trigger] self.q_values@[j] <= self.q_values@[best as int],
                forall|j: int|
                    best < j < i ==> #[trigger] self.q_values@[j] < self.q_values@[best as int],
            decreases 4 - i,
        {
            if self.q_values[i] >= self.q_values[best] {
                best = i;
            }
            i += 1;
        }
        best
    }

    /// Breeds two children with an operator of the bandit's choice: now and
    /// then one drawn at random, else its favourite. The children come
    /// evaluated, and the operator's value moves towards the reward, the
    /// lower makespan of the children less the lower one of the parents.
    pub fn crossover(
        &mut self,
        p1: &Chromosome,
        p2: &Chromosome,
        k: Option<usize>,
        makespan: &mut Makespan,
        rng: &mut StdRng,
    ) -> (r: (Chromosome, Chromosome))
        requires
            old(self).well_formed(),
            crossable(*p1, *p2, *old(makespan)),
            old(makespan).instance@.jobs >= 2,
            k.is_some() ==> k.unwrap() < old(makespan).instance@.jobs,
            block_size(k, old(makespan).instance@.jobs) >= 1,
            p1.makespan.is_some(),
            p2.makespan.is_some(),
        ensures
            final(self).well_formed(),
            final(self).learning_rate == old(self).learning_rate,
            final(self).epsilon == old(self).epsilon,
            exists|operator: int|
                0 <= operator < 4 && #[trigger] rewarded(*old(self), *final(self), operator, *p1, *p2, r)
                    && bred_jobs(operator, k, p1.jobs@, p2.jobs@, r.0.jobs@, r.1.jobs@),
            is_permutation(r.0.jobs@, old(makespan).instance@.jobs),
            is_permutation(r.1.jobs@, old(makespan).instance@.jobs),
            r.0.evaluated(old(makespan).instance@),
            r.1.evaluated(old(makespan).instance@),
            final(makespan).instance == old(makespan).instance,
            final(makespan).count >= old(makespan).count,
    {
        let operator: usize = if chance(rng, self.epsilon, PER_MILLE) {
            draw_below(rng, 4)
        } else {
            self.favourite()
        };
        let r = self.evaluate(p1, p2, k, makespan, rng, operator);
        assert(rewarded(*old(self), *self, operator as int, *p1, *p2, r) && bred_jobs(
            operator as int,
            k,
            p1.jobs@,
            p2.jobs@,
            r.0.jobs@,
            r.1.jobs@,
        ));
        r
    }

    /// Breeds two children with the given operator, evaluates them, and
    /// moves the operator's value towards the reward.
    pub fn evaluate(
        &mut self,
        p1: &Chromosome,
        p2: &Chromosome,
        k: Option<usize>,
        makespan: &mut Makespan,
        rng: &mut StdRng,
        crossover: usize,
    ) -> (r: (Chromosome, Chromosome))
        requires
            old(self).well_formed(),
            crossover < 4,
            crossable(*p1, *p2, *old(makespan)),
            crossover == 0 ==> SJ2OX::accepts(k, old(makespan).instance@.jobs),
            crossover == 1 ==> BCBX::accepts(k, old(makespan).instance@.jobs),
            crossover == 3 ==> PMX::accepts(k, old(makespan).instance@.jobs),
            p1.makespan.is_some(),
            p2.makespan.is_some(),
        ensures
            final(self).well_formed(),
            final(self).learning_rate == old(self).learning_rate,
            final(self).epsilon == old(self).epsilon,
            rewarded(*old(self), *final(self), crossover as int, *p1, *p2, r),
            bred_jobs(crossover as int, k, p1.jobs@, p2.jobs@, r.0.jobs@, r.1.jobs@),
            is_permutation(r.0.jobs@, old(makespan).instance@.jobs),
            is_permutation(r.1.jobs@, old(makespan).instance@.jobs),
            r.0.evaluated(old(makespan).instance@),
            r.1.evaluated(old(makespan).instance@),
            final(makespan).instance == old(makespan).instance,
            final(makespan).count >= old(makespan).count,
    {
        let ghost inst = makespan.instance@;
        let (mut c1, mut c2) = crossover_at(crossover, p1, p2, k, makespan, rng);
        proof {
            crate::permutation::lemma_partial_length(c1.jobs@, inst.jobs);
        }
        if c1.updated {
            c1.makespan(makespan);
        }
        if c2.updated {
            c2.makespan(makespan);
        }
        let child: u32 = lower(c1.makespan.unwrap(), c2.makespan.unwrap());
        let parent: u32 = lower(p1.makespan.unwrap(), p2.makespan.unwrap());
        let shifted: u64 = (child as u64 + 4_294_967_296 - parent as u64) * 1000;
        let rate: u64 = self.learning_rate as u64;
        let q: u64 = self.q_values[crossover];
        assert((1000 - rate) * q + rate * shifted <= 1000 * Q_TOP) by (nonlinear_arith)
            requires
                0 <= rate <= 1000,
                0 <= q <= Q_TOP,
                0 <= shifted <= Q_TOP,
        ;
        let next: u64 = ((1000 - rate) * q + rate * shifted) / 1000;
        self.q_values[crossover] = next;
        (c1, c2)
    }
}

/// The lower of two makespans.
pub fn lower(a: u32, b: u32) -> (r: u32)
    ensures
        r == if a <= b {
            a
        } else {
            b
        },
{
    if a <= b {
        a
    } else {
        b
    }
}

/// After breeding `children` from `p1` and `p2` with `operator` the bandit
/// `after` is `before` with the value of the operator moved towards the
/// reward.
pub open spec fn rewarded(
    before: Qlearning,
    after: Qlearning,
    operator: int,
    p1: Chromosome,
    p2: Chromosome,
    children: (Chromosome, Chromosome),
) -> bool {
    let child = if children.0.makespan.unwrap() <= children.1.makespan.unwrap() {
        children.0.makespan.unwrap()
    } else {
        children.1.makespan.unwrap()
    };
    let parent = if p1.makespan.unwrap() <= p2.makespan.unwrap() {
        p1.makespan.unwrap()
    } else {
        p2.makespan.unwrap()
    };
    after.q_values@ == before.q_values@.update(
        operator,
        q_after(before.q_values@[operator], before.learning_rate, child - parent) as u64,
    )
}

} // verus!
