//! The greedy construction heuristic: the jobs are taken in a random order,
//! and each is put where the schedule built so far gets the lowest makespan.

use crate::best_insertion::{block_costs, find_best_insertion, placed};
use crate::chromosome::Chromosome;
use crate::makespan::{add_count, tries, Makespan};
use crate::permutation::{
    ascending_jobs, is_partial_permutation, is_permutation, lemma_insert, lemma_same_elements,
};
use crate::random::shuffle;
use crate::schedule::makespan_of;
use rand::rngs::StdRng;
use vstd::prelude::*;

verus! {

/// Something that builds chromosomes.
pub trait Constructor {
    /// The constructor can be asked for a chromosome.
    spec fn ready(&self) -> bool;

    /// Builds one chromosome.
    fn create(&mut self) -> (r: Chromosome)
        requires
            old(self).ready(),
        ensures
            final(self).ready(),
    ;
}

/// The greedy construction heuristic on an engine and a random source.
pub struct GCH<'a> {
    pub makespan: &'a mut Makespan,
    pub rng: &'a mut StdRng,
}

/// `s` is `before` with `job` put in at place `p`, and no place gives a
/// lower makespan.
pub open spec fn grown(
    inst: crate::instance::InstanceView,
    before: Seq<u32>,
    job: u32,
    p: int,
    s: Seq<u32>,
) -> bool {
    &&& 0 <= p <= before.len()
    &&& s == placed(before, seq![job], p)
    &&& forall|q: int|
        0 <= q <= before.len() ==> makespan_of(inst, s) <= #[trigger] block_costs(
            inst,
            before,
            seq![job],
        )[q]
}

/// `s` can be built greedily from the first `k` jobs of `order`: each job
/// was put into the schedule of the jobs before it at a place of lowest
/// makespan.
pub open spec fn greedy_built(
    inst: crate::instance::InstanceView,
    order: Seq<u32>,
    k: nat,
    s: Seq<u32>,
) -> bool
    decreases k,
{
    if k == 0 {
        s.len() == 0
    } else {
        exists|before: Seq<u32>, p: int|
            greedy_built(inst, order, (k - 1) as nat, before) && #[trigger] grown(
                inst,
                before,
                order[k - 1],
                p,
                s,
            )
    }
}

/// `jobs` can be built greedily from some order of the jobs of the
/// instance.
pub open spec fn is_greedy_schedule(inst: crate::instance::InstanceView, jobs: Seq<u32>) -> bool {
    exists|order: Seq<u32>|
        is_permutation(order, inst.jobs) && #[trigger] greedy_built(inst, order, inst.jobs, jobs)
}

/// Builds one chromosome greedily from a random job order. The chromosome
/// comes evaluated.
pub fn construct(makespan: &mut Makespan, rng: &mut StdRng) -> (r: Chromosome)
    requires
        old(makespan).instance@.well_formed(),
    ensures
        is_permutation(r.jobs@, old(makespan).instance@.jobs),
        exists|order: Seq<u32>|
            is_permutation(order, old(makespan).instance@.jobs) && greedy_built(
                old(makespan).instance@,
                order,
                old(makespan).instance@.jobs,
                r.jobs@,
            ),
        r.makespan == Some(makespan_of(old(makespan).instance@, r.jobs@) as u32),
        makespan_of(old(makespan).instance@, r.jobs@) <= u32::MAX,
        !r.updated,
        final(makespan).instance == old(makespan).instance,
        final(makespan).count == add_count(
            old(makespan).count,
            tries(old(makespan).instance@.jobs),
        ),
{
    let ghost inst = makespan.instance@;
    let n: usize = makespan.instance.jobs as usize;
    let mut jobs: Vec<u32> = ascending_jobs(makespan.instance.jobs);
    let ghost sorted = jobs@;
    shuffle(&mut jobs, rng);
    let ghost shuffled = jobs@;
    let ghost order = Seq::new(n as nat, |i: int| shuffled[n - 1 - i]);
    proof {
        lemma_same_elements(sorted, shuffled, inst.jobs);
        assert(is_permutation(order, inst.jobs)) by {
            assert forall|i: int, j: int|
                0 <= i < order.len() && 0 <= j < order.len() && i != j implies order[i]
                != order[j] by {
                assert(shuffled[n - 1 - i] != shuffled[n - 1 - j]);
            }
        }
    }
    let first: u32 = jobs[n - 1];
    let mut c: Vec<u32> = Vec::with_capacity(n);
    c.push(first);
    let (mut cost, _) = makespan.makespan(&c);
    proof {
        let empty = Seq::<u32>::empty();
        assert(greedy_built(inst, order, 0, empty));
        assert(c@ =~= placed(empty, seq![order[0]], 0));
        assert(grown(inst, empty, order[1 - 1], 0, c@));
        assert(greedy_built(inst, order, (1 - 1) as nat, empty));
        assert(greedy_built(inst, order, 1, c@));
        assert(c@.no_duplicates());
        assert(tries(1) == tries(0) + 1);
    }
    let mut k: usize = 1;
    while k < n
        invariant
            inst == makespan.instance@,
            inst.well_formed(),
            makespan.instance == old(makespan).instance,
            makespan.count == add_count(old(makespan).count, tries(k as nat)),
            n == inst.jobs,
            jobs@ == shuffled,
            shuffled.len() == n,
            order == Seq::new(n as nat, |i: int| shuffled[n - 1 - i]),
            is_permutation(order, inst.jobs),
            1 <= k <= n,
            c.len() == k,
            is_partial_permutation(c@, inst.jobs),
            forall|x: u32| c@.contains(x) ==> exists|i: int| 0 <= i < k && order[i] == x,
            greedy_built(inst, order, k as nat, c@),
            cost == makespan_of(inst, c@),
        decreases n - k,
    {
        let job: u32 = jobs[n - 1 - k];
        let block: Vec<u32> = vec![job];
        let ghost before = c@;
        proof {
            assert(order[k as int] == job);
            assert(order[k as int] < inst.jobs);
            assert(block@ =~= seq![job]);
            if before.contains(job) {
                let i = choose|i: int| 0 <= i < k && order[i] == job;
                assert(order[i] == order[k as int]);
            }
        }
        let (next, next_cost) = find_best_insertion(c, block.as_slice(), makespan, false, rng);
        c = next;
        cost = next_cost;
        proof {
            let p = choose|p: int|
                0 <= p <= before.len() && c@ == placed(before, block@, p) && cost
                    == #[trigger] block_costs(inst, before, block@)[p];
            assert(placed(before, block@, p) =~= before.insert(p, job));
            lemma_insert(before, inst.jobs, p, job);
            assert forall|x: u32| c@.contains(x) implies exists|i: int|
                0 <= i < k + 1 && order[i] == x by {
                let a = choose|a: int| 0 <= a < c@.len() && c@[a] == x;
                if a == p {
                    assert(order[k as int] == x);
                } else {
                    let a0 = if a < p {
                        a
                    } else {
                        a - 1
                    };
                    assert(before[a0] == x);
                    assert(before.contains(x));
                    let i = choose|i: int| 0 <= i < k && order[i] == x;
                    assert(0 <= i < k + 1 && order[i] == x);
                }
            }
            let k1 = (k + 1) as nat;
            assert(tries(k1) == tries(k as nat) + k1);
            assert(grown(inst, before, order[k1 - 1], p, c@));
            assert(greedy_built(inst, order, (k1 - 1) as nat, before));
            assert(greedy_built(inst, order, k1, c@));
        }
        k += 1;
    }
    Chromosome::new_with_makespan(c, cost)
}

impl<'a> Constructor for GCH<'a> {
    open spec fn ready(&self) -> bool {
        self.makespan.instance@.well_formed()
    }

    /// Builds one chromosome greedily from a random job order. The
    /// chromosome comes evaluated.
    fn create(&mut self) -> (r: Chromosome)
        ensures
            is_permutation(r.jobs@, old(self).makespan.instance@.jobs),
            is_greedy_schedule(old(self).makespan.instance@, r.jobs@),
            r.evaluated(old(self).makespan.instance@),
            final(self).makespan.instance == old(self).makespan.instance,
            final(self).makespan.count == add_count(
                old(self).makespan.count,
                tries(old(self).makespan.instance@.jobs),
            ),
    {
        construct(self.makespan, self.rng)
    }
}

impl<'a> GCH<'a> {
    /// Builds `count` chromosomes, each from a random order of its own.
    pub fn take(&mut self, count: usize) -> (r: Vec<Chromosome>)
        requires
            old(self).makespan.instance@.well_formed(),
        ensures
            r.len() == count,
            forall|i: int|
                0 <= i < count ==> is_permutation(
                    (#[trigger] r@[i]).jobs@,
                    old(self).makespan.instance@.jobs,
                ) && r@[i].evaluated(old(self).makespan.instance@) && is_greedy_schedule(
                    old(self).makespan.instance@,
                    r@[i].jobs@,
                ),
            final(self).makespan.instance == old(self).makespan.instance,
    {
        let mut built: Vec<Chromosome> = Vec::with_capacity(count);
        let mut i: usize = 0;
        while i < count
            invariant
                i <= count,
                built.len() == i,
                self.makespan.instance@.well_formed(),
                self.makespan.instance == old(self).makespan.instance,
                forall|j: int|
                    0 <= j < i ==> is_permutation(
                        (#[trigger] built@[j]).jobs@,
                        self.makespan.instance@.jobs,
                    ) && built@[j].evaluated(self.makespan.instance@) && is_greedy_schedule(
                        self.makespan.instance@,
                        built@[j].jobs@,
                    ),
            decreases count - i,
        {
            let c = self.create();
            built.push(c);
            i += 1;
        }
        built
    }
}

} // verus!
