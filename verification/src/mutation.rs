//! Mutations: small random changes of a job order.

use crate::best_insertion::{block_costs, find_best_insertion, placed};
use crate::chromosome::Chromosome;
use crate::instance::InstanceView;
use crate::makespan::{add_count, Makespan};
use crate::params::REVERSAL_PERCENT;
use crate::permutation::{is_permutation, lemma_insert, lemma_remove};
use crate::random::draw_below;
use crate::schedule::makespan_of;
use rand::rngs::StdRng;
use vstd::prelude::*;

verus! {

/// The kinds of mutation.
#[derive(Clone, Copy, Debug)]
pub enum MTYPE {
    Shift,
    Reverse,
    Swap,
    Greedy,
    /// One of the four kinds, drawn anew each time.
    Random,
}

/// What every mutation asks for: a sound engine and a permutation of its
/// jobs.
pub open spec fn mutable(c: Chromosome, m: Makespan) -> bool {
    &&& m.instance@.well_formed()
    &&& is_permutation(c.jobs@, m.instance@.jobs)
}

/// What every mutation leaves behind: a permutation again, which is either
/// marked as changed or carries its true makespan.
pub open spec fn mutated(c: Chromosome, inst: InstanceView) -> bool {
    &&& is_permutation(c.jobs@, inst.jobs)
    &&& c.updated || c.evaluated(inst)
}

/// A mutation operator.
pub trait Mutation {
    /// The operator can work on `jobs` jobs.
    spec fn accepts(jobs: nat) -> bool;

    /// Changes the job order of `c` at random.
    fn apply(c: &mut Chromosome, m: &mut Makespan, rng: &mut StdRng)
        requires
            mutable(*old(c), *old(m)),
            Self::accepts(old(m).instance@.jobs),
        ensures
            mutated(*final(c), old(m).instance@),
            final(m).instance == old(m).instance,
            final(m).count >= old(m).count,
    ;
}

/// Moves one job to another place.
pub struct SHIFT;

/// Turns a stretch of the order round.
pub struct Reverse;

/// Exchanges two jobs.
pub struct Swap;

/// Takes one job out and puts it where the makespan is lowest.
pub struct Greedy;

/// `s` with the job at `from` taken out and put in again at `to`.
pub open spec fn shifted(s: Seq<u32>, from: int, to: int) -> Seq<u32> {
    s.remove(from).insert(to, s[from])
}

/// `s` with the `size` jobs from `start` on in reverse order.
pub open spec fn reversed(s: Seq<u32>, start: int, size: int) -> Seq<u32> {
    Seq::new(
        s.len(),
        |i: int|
            if start <= i < start + size {
                s[2 * start + size - 1 - i]
            } else {
                s[i]
            },
    )
}

/// `s` with the jobs at `a` and `b` exchanged.
pub open spec fn swapped(s: Seq<u32>, a: int, b: int) -> Seq<u32> {
    s.update(a, s[b]).update(b, s[a])
}

/// `after` is `before` with one job moved to a place of the order.
pub open spec fn is_shift(before: Seq<u32>, after: Seq<u32>) -> bool {
    exists|from: int, to: int|
        0 <= from < before.len() && 0 <= to < before.len() && after == #[trigger] shifted(
            before,
            from,
            to,
        )
}

/// `after` is `before` with a stretch of one in `REVERSAL_PERCENT` of its
/// jobs turned round.
pub open spec fn is_reversal(before: Seq<u32>, after: Seq<u32>) -> bool {
    exists|start: int|
        0 <= start && start + before.len() / (REVERSAL_PERCENT as nat) <= before.len() && after
            == #[trigger] reversed(before, start, (before.len() / (REVERSAL_PERCENT as nat)) as int)
}

/// `after` is `before` with the jobs at two different places exchanged.
pub open spec fn is_swap(before: Seq<u32>, after: Seq<u32>) -> bool {
    exists|a: int, b: int|
        0 <= a < before.len() && 0 <= b < before.len() && a != b && after == #[trigger] swapped(
            before,
            a,
            b,
        )
}

/// `after` is marked as changed and keeps the cached makespan `cached`.
pub open spec fn marked(after: Chromosome, cached: Option<u32>) -> bool {
    after.updated && after.makespan == cached
}

/// `after` is `jobs` with one job moved, carries its true makespan, and
/// that makespan is not higher than the makespan of `jobs`.
pub open spec fn is_greedy_move(jobs: Seq<u32>, after: Chromosome, inst: InstanceView) -> bool {
    &&& is_shift(jobs, after.jobs@)
    &&& after.evaluated(inst)
    &&& makespan_of(inst, after.jobs@) <= makespan_of(inst, jobs)
}

/// `after` is what the mutation of kind `kind` can make of a chromosome
/// with the job order `jobs` and the cached makespan `cached`: the job
/// order has changed as the kind says, and the chromosome is marked as
/// changed or, after a greedy move, carries its true makespan.
pub open spec fn is_mutant(
    kind: MTYPE,
    jobs: Seq<u32>,
    cached: Option<u32>,
    after: Chromosome,
    inst: InstanceView,
) -> bool {
    match kind {
        MTYPE::Shift => is_shift(jobs, after.jobs@) && marked(after, cached),
        MTYPE::Reverse => is_reversal(jobs, after.jobs@) && marked(after, cached),
        MTYPE::Swap => is_swap(jobs, after.jobs@) && marked(after, cached),
        MTYPE::Greedy => is_greedy_move(jobs, after, inst),
        MTYPE::Random => {
            ||| is_shift(jobs, after.jobs@) && marked(after, cached)
            ||| is_reversal(jobs, after.jobs@) && marked(after, cached)
            ||| is_swap(jobs, after.jobs@) && marked(after, cached)
            ||| is_greedy_move(jobs, after, inst)
        },
    }
}

/// Every chromosome of `after` is the one at its place in `before`, or what
/// the mutation of kind `kind` can make of it.
pub open spec fn mutants_or_same(
    kind: MTYPE,
    before: Seq<Chromosome>,
    after: Seq<Chromosome>,
    inst: InstanceView,
) -> bool {
    forall|i: int|
        0 <= i < after.len() ==> #[trigger] after[i] == before[i] || is_mutant(
            kind,
            before[i].jobs@,
            before[i].makespan,
            after[i],
            inst,
        )
}

/// Every chromosome of `after` is what the mutation of kind `kind` can make
/// of the one at its place in `before`.
pub open spec fn all_mutants(
    kind: MTYPE,
    before: Seq<Chromosome>,
    after: Seq<Chromosome>,
    inst: InstanceView,
) -> bool {
    forall|i: int|
        0 <= i < after.len() ==> is_mutant(
            kind,
            before[i].jobs@,
            before[i].makespan,
            #[trigger] after[i],
            inst,
        )
}

/// Moves the job at `from` to `to`.
pub fn shift_at(c: &mut Chromosome, from: usize, to: usize)
    requires
        from < old(c).jobs.len(),
        to < old(c).jobs.len(),
    ensures
        final(c).jobs@ == shifted(old(c).jobs@, from as int, to as int),
        final(c).updated,
        final(c).makespan == old(c).makespan,
{
    let job = c.jobs.remove(from);
    c.jobs.insert(to, job);
    c.updated = true;
}

/// Reverses the `size` jobs from `start` on.
pub fn reverse_at(c: &mut Chromosome, start: usize, size: usize)
    requires
        start + size <= old(c).jobs.len(),
    ensures
        final(c).jobs@ == reversed(old(c).jobs@, start as int, size as int),
        final(c).updated,
        final(c).makespan == old(c).makespan,
{
    let ghost before = c.jobs@;
    let mut i: usize = 0;
    while i < size / 2
        invariant
            start + size <= before.len(),
            start + size <= usize::MAX,
            c.jobs@.len() == before.len(),
            c.makespan == old(c).makespan,
            i <= size / 2,
            forall|k: int|
                0 <= k < before.len() ==> #[trigger] c.jobs@[k] == if start <= k < start + i
                    || start + size - i <= k < start + size {
                    before[2 * start + size - 1 - k]
                } else {
                    before[k]
                },
        decreases size / 2 - i,
    {
        let a: usize = start + i;
        let b: usize = start + size - 1 - i;
        let x: u32 = c.jobs[a];
        let y: u32 = c.jobs[b];
        c.jobs[a] = y;
        c.jobs[b] = x;
        i += 1;
    }
    c.updated = true;
    assert(c.jobs@ =~= reversed(before, start as int, size as int));
}

/// Exchanges the jobs at `a` and `b`.
pub fn swap_at(c: &mut Chromosome, a: usize, b: usize)
    requires
        a < old(c).jobs.len(),
        b < old(c).jobs.len(),
    ensures
        final(c).jobs@ == swapped(old(c).jobs@, a as int, b as int),
        final(c).updated,
        final(c).makespan == old(c).makespan,
{
    let x: u32 = c.jobs[a];
    let y: u32 = c.jobs[b];
    c.jobs[a] = y;
    c.jobs[b] = x;
    c.updated = true;
}

/// Moving a job keeps a permutation a permutation.
pub proof fn lemma_shifted(s: Seq<u32>, n: nat, from: int, to: int)
    requires
        is_permutation(s, n),
        0 <= from < s.len(),
        0 <= to < s.len(),
    ensures
        is_permutation(shifted(s, from, to), n),
{
    lemma_remove(s, n, from);
    lemma_insert(s.remove(from), n, to, s[from]);
}

/// Reversing a stretch keeps a permutation a permutation.
pub proof fn lemma_reversed(s: Seq<u32>, n: nat, start: int, size: int)
    requires
        is_permutation(s, n),
        0 <= start,
        0 <= size,
        start + size <= s.len(),
    ensures
        is_permutation(reversed(s, start, size), n),
{
    let r = reversed(s, start, size);
    assert forall|i: int, j: int| 0 <= i < r.len() && 0 <= j < r.len() && i != j implies r[i]
        != r[j] by {
        let i0 = if start <= i < start + size {
            2 * start + size - 1 - i
        } else {
            i
        };
        let j0 = if start <= j < start + size {
            2 * start + size - 1 - j
        } else {
            j
        };
        assert(r[i] == s[i0] && r[j] == s[j0]);
        assert(i0 != j0);
    }
}

/// Exchanging two jobs keeps a permutation a permutation.
pub proof fn lemma_swapped(s: Seq<u32>, n: nat, a: int, b: int)
    requires
        is_permutation(s, n),
        0 <= a < s.len(),
        0 <= b < s.len(),
    ensures
        is_permutation(swapped(s, a, b), n),
{
    let r = swapped(s, a, b);
    assert forall|i: int, j: int| 0 <= i < r.len() && 0 <= j < r.len() && i != j implies r[i]
        != r[j] by {
        let i0 = if i == a {
            b
        } else if i == b {
            a
        } else {
            i
        };
        let j0 = if j == a {
            b
        } else if j == b {
            a
        } else {
            j
        };
        assert(r[i] == s[i0] && r[j] == s[j0]);
        assert(i0 != j0);
    }
}

impl Mutation for SHIFT {
    /// Any number of jobs will do.
    open spec fn accepts(jobs: nat) -> bool {
        true
    }

    /// Takes a job from a random place and puts it at a random place.
    fn apply(c: &mut Chromosome, _m: &mut Makespan, rng: &mut StdRng)
        ensures
            is_mutant(
                MTYPE::Shift,
                old(c).jobs@,
                old(c).makespan,
                *final(c),
                old(_m).instance@,
            ),
            *final(_m) == *old(_m),
    {
        let from = draw_below(rng, c.jobs.len());
        let to = draw_below(rng, c.jobs.len());
        proof {
            lemma_shifted(c.jobs@, _m.instance@.jobs, from as int, to as int);
        }
        shift_at(c, from, to);
        assert(c.jobs@ == shifted(old(c).jobs@, from as int, to as int));
        assert(is_shift(old(c).jobs@, c.jobs@));
    }
}

impl Mutation for Reverse {
    /// Any number of jobs will do.
    open spec fn accepts(jobs: nat) -> bool {
        true
    }

    /// Reverses a stretch of a tenth of the jobs at a random place.
    fn apply(c: &mut Chromosome, _m: &mut Makespan, rng: &mut StdRng)
        ensures
            is_mutant(
                MTYPE::Reverse,
                old(c).jobs@,
                old(c).makespan,
                *final(c),
                old(_m).instance@,
            ),
            *final(_m) == *old(_m),
    {
        let size: usize = c.jobs.len() / REVERSAL_PERCENT;
        let start = draw_below(rng, c.jobs.len() - size);
        proof {
            lemma_reversed(c.jobs@, _m.instance@.jobs, start as int, size as int);
        }
        reverse_at(c, start, size);
        assert(c.jobs@ == reversed(
            old(c).jobs@,
            start as int,
            (old(c).jobs@.len() / (REVERSAL_PERCENT as nat)) as int,
        ));
        assert(is_reversal(old(c).jobs@, c.jobs@));
    }
}

impl Mutation for Swap {
    /// Two places are needed.
    open spec fn accepts(jobs: nat) -> bool {
        jobs >= 2
    }

    /// Exchanges the jobs at two different random places.
    fn apply(c: &mut Chromosome, _m: &mut Makespan, rng: &mut StdRng)
        ensures
            is_mutant(
                MTYPE::Swap,
                old(c).jobs@,
                old(c).makespan,
                *final(c),
                old(_m).instance@,
            ),
            *final(_m) == *old(_m),
    {
        let j1 = draw_below(rng, c.jobs.len());
        let other = draw_below(rng, c.jobs.len() - 1);
        // The second place is drawn among the places that are left.
        let j2: usize = if other >= j1 {
            other + 1
        } else {
            other
        };
        proof {
            lemma_swapped(c.jobs@, _m.instance@.jobs, j1 as int, j2 as int);
        }
        swap_at(c, j1, j2);
        assert(c.jobs@ == swapped(old(c).jobs@, j1 as int, j2 as int));
        assert(is_swap(old(c).jobs@, c.jobs@));
    }
}

impl Mutation for Greedy {
    /// A job must be left when one is taken out.
    open spec fn accepts(jobs: nat) -> bool {
        jobs >= 2
    }

    /// Takes the job at a random place out and puts it where the makespan
    /// is lowest; every place is tried by one simulation. The chromosome
    /// comes evaluated, and its makespan is not higher than that of the
    /// order before.
    fn apply(c: &mut Chromosome, m: &mut Makespan, rng: &mut StdRng)
        ensures
            is_mutant(
                MTYPE::Greedy,
                old(c).jobs@,
                old(c).makespan,
                *final(c),
                old(m).instance@,
            ),
            final(m).count == add_count(old(m).count, old(m).instance@.jobs),
    {
        let ghost inst = m.instance@;
        let ghost before = c.jobs@;
        let rand_job = draw_below(rng, c.jobs.len());
        let mut rest: Vec<u32> = c.jobs.clone();
        assert(rest@ =~= before);
        let job = rest.remove(rand_job);
        let block: Vec<u32> = vec![job];
        proof {
            lemma_remove(before, inst.jobs, rand_job as int);
            assert(block@ =~= seq![job]);
            assert(placed(rest@, block@, rand_job as int) =~= before);
        }
        let ghost reduced = rest@;
        let (new_jobs, makespan) = find_best_insertion(rest, block.as_slice(), m, false, rng);
        proof {
            let p = choose|p: int|
                0 <= p <= reduced.len() && new_jobs@ == placed(reduced, block@, p) && makespan
                    == #[trigger] block_costs(inst, reduced, block@)[p];
            assert(placed(reduced, block@, p) =~= reduced.insert(p, job));
            lemma_insert(reduced, inst.jobs, p, job);
            assert(new_jobs@ == shifted(before, rand_job as int, p));
            assert(makespan <= block_costs(inst, reduced, block@)[rand_job as int]);
        }
        c.jobs = new_jobs;
        c.makespan = Some(makespan);
        c.updated = false;
        assert(is_shift(before, c.jobs@));
    }
}

} // verus!
