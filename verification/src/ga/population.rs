//! Populations: their order by makespan, their best members, and what it
//! means that one is not worse than another.

use crate::chromosome::Chromosome;
use crate::instance::{same_row, Instance, InstanceView};
use crate::makespan::Makespan;
use crate::minimum::{first_minimum, is_first_minimum, lemma_first_minimum_exists};
use crate::permutation::{check_permutation, is_permutation, lemma_partial_length};
use vstd::prelude::*;

verus! {

/// Every chromosome of `pop` is a permutation of the jobs of `inst` and
/// carries its true makespan.
pub open spec fn all_evaluated(pop: Seq<Chromosome>, inst: InstanceView) -> bool {
    forall|i: int|
        0 <= i < pop.len() ==> is_permutation((#[trigger] pop[i]).jobs@, inst.jobs)
            && pop[i].evaluated(inst)
}

/// Every chromosome of `pop` is a permutation of the jobs of `inst` that is
/// marked as changed or carries its true makespan.
pub open spec fn all_bred(pop: Seq<Chromosome>, inst: InstanceView) -> bool {
    forall|i: int|
        0 <= i < pop.len() ==> is_permutation((#[trigger] pop[i]).jobs@, inst.jobs) && (
        pop[i].updated || pop[i].evaluated(inst))
}

/// `c` has the job order, the makespan and the mark of a chromosome of
/// `pop`.
pub open spec fn is_copy_of(c: Chromosome, pop: Seq<Chromosome>) -> bool {
    exists|k: int| 0 <= k < pop.len() && c@ == (#[trigger] pop[k])@
}

/// Every chromosome of `pool` is a copy of one of `pop`.
pub open spec fn copies_of(pool: Seq<Chromosome>, pop: Seq<Chromosome>) -> bool {
    forall|i: int| 0 <= i < pool.len() ==> is_copy_of(#[trigger] pool[i], pop)
}

/// The cached makespans of `pop`.
pub open spec fn makespans(pop: Seq<Chromosome>) -> Seq<int> {
    Seq::new(pop.len(), |i: int| pop[i].makespan.unwrap() as int)
}

/// The makespans never decrease along `pop`.
pub open spec fn ascending_makespans(pop: Seq<Chromosome>) -> bool {
    forall|i: int, j: int|
        0 <= i <= j < pop.len() ==> pop[i].makespan.unwrap() <= pop[j].makespan.unwrap()
}

/// `low` is the lowest makespan of `pop`.
pub open spec fn is_lowest(pop: Seq<Chromosome>, low: int) -> bool {
    &&& forall|i: int| 0 <= i < pop.len() ==> low <= (#[trigger] pop[i]).makespan.unwrap()
    &&& exists|i: int| 0 <= i < pop.len() && (#[trigger] pop[i]).makespan.unwrap() == low
}

/// `mid` holds the chromosomes of `pop`, each as often, in the order of
/// ascending makespan.
pub open spec fn ordered_from(pop: Seq<Chromosome>, mid: Seq<Chromosome>) -> bool {
    ascending_makespans(mid) && mid.to_multiset() == pop.to_multiset()
}

/// `after` is `before` evaluated: every chromosome has the job order that
/// it had and carries its true makespan, and those that were not marked as
/// changed are as they were.
pub open spec fn evaluated_from(
    before: Seq<Chromosome>,
    after: Seq<Chromosome>,
    inst: InstanceView,
) -> bool {
    &&& after.len() == before.len()
    &&& all_evaluated(after, inst)
    &&& forall|i: int|
        0 <= i < after.len() ==> (#[trigger] after[i]).jobs@ == before[i].jobs@ && (
        !before[i].updated ==> after[i] == before[i])
}

/// The lowest cached makespan of `pop`.
pub open spec fn lowest(pop: Seq<Chromosome>) -> int {
    makespans(pop)[first_minimum(makespans(pop))]
}

/// The lowest makespan of a population that is not empty is one of its
/// makespans, and none is lower.
pub proof fn lemma_lowest(pop: Seq<Chromosome>)
    requires
        pop.len() >= 1,
    ensures
        is_lowest(pop, lowest(pop)),
{
    let values = makespans(pop);
    lemma_first_minimum_exists(values);
    let p = first_minimum(values);
    assert forall|i: int| 0 <= i < pop.len() implies lowest(pop) <= (
    #[trigger] pop[i]).makespan.unwrap() by {
        assert(values[p] <= values[i]);
    }
    assert(pop[p].makespan.unwrap() == lowest(pop));
}

/// The record `after` begins with the record `before`.
pub open spec fn extends<T>(after: Seq<T>, before: Seq<T>) -> bool {
    &&& before.len() <= after.len()
    &&& forall|i: int| 0 <= i < before.len() ==> #[trigger] after[i] == before[i]
}

/// Sequences with the same elements, each as often, are equally long, and
/// every element of the one is an element of the other.
pub proof fn lemma_same_members<T>(a: Seq<T>, b: Seq<T>)
    requires
        a.to_multiset() == b.to_multiset(),
    ensures
        a.len() == b.len(),
        forall|i: int| 0 <= i < b.len() ==> a.contains(#[trigger] b[i]),
{
    vstd::seq_lib::to_multiset_len(a);
    vstd::seq_lib::to_multiset_len(b);
    assert forall|i: int| 0 <= i < b.len() implies a.contains(#[trigger] b[i]) by {
        assert(b.contains(b[i]));
        vstd::seq_lib::to_multiset_contains(b, b[i]);
        vstd::seq_lib::to_multiset_contains(a, b[i]);
    }
}

/// The place of the first chromosome of `pop` with the lowest makespan.
pub fn best_index(pop: &Vec<Chromosome>) -> (r: usize)
    requires
        pop.len() >= 1,
        forall|i: int| 0 <= i < pop.len() ==> (#[trigger] pop@[i]).makespan.is_some(),
    ensures
        is_first_minimum(makespans(pop@), r as int),
{
    let mut best: usize = 0;
    let mut i: usize = 1;
    while i < pop.len()
        invariant
            1 <= i <= pop.len(),
            best < i,
            forall|i: int| 0 <= i < pop.len() ==> (#[trigger] pop@[i]).makespan.is_some(),
            forall|j: int|
                0 <= j < i ==> makespans(pop@)[best as int] <= #[trigger] makespans(pop@)[j],
            forall|j: int|
                0 <= j < best ==> #[trigger] makespans(pop@)[j] > makespans(pop@)[best as int],
        decreases pop.len() - i,
    {
        if pop[i].makespan.unwrap() < pop[best].makespan.unwrap() {
            best = i;
        }
        i += 1;
    }
    best
}

/// Orders `population` by ascending makespan.
pub fn sort_population(population: &mut Vec<Chromosome>)
    requires
        forall|i: int|
            0 <= i < old(population).len() ==> (#[trigger] old(population)@[i]).makespan.is_some(),
    ensures
        final(population)@.to_multiset() == old(population)@.to_multiset(),
        ascending_makespans(final(population)@),
{
    broadcast use vstd::multiset::group_multiset_axioms;

    let mut sorted: Vec<Chromosome> = Vec::with_capacity(population.len());
    assert(sorted@.to_multiset() =~= vstd::multiset::Multiset::empty()) by {
        vstd::seq_lib::to_multiset_len(sorted@);
    }
    while population.len() > 0
        invariant
            sorted@.to_multiset().add(population@.to_multiset()) == old(population)@.to_multiset(),
            ascending_makespans(sorted@),
            forall|i: int|
                0 <= i < population.len() ==> (#[trigger] population@[i]).makespan.is_some(),
            forall|i: int| 0 <= i < sorted.len() ==> (#[trigger] sorted@[i]).makespan.is_some(),
        decreases population.len(),
    {
        let ghost rest = population@;
        let ghost done = sorted@;
        let c = population.pop().unwrap();
        proof {
            assert(rest =~= population@.push(c));
            vstd::seq_lib::to_multiset_build(population@, c);
        }
        let mut p: usize = 0;
        while p < sorted.len() && sorted[p].makespan.unwrap() < c.makespan.unwrap()
            invariant
                p <= sorted.len(),
                c.makespan.is_some(),
                forall|i: int| 0 <= i < sorted.len() ==> (#[trigger] sorted@[i]).makespan.is_some(),
                forall|i: int|
                    0 <= i < p ==> (#[trigger] sorted@[i]).makespan.unwrap() < c.makespan.unwrap(),
            decreases sorted.len() - p,
        {
            p += 1;
        }
        sorted.insert(p, c);
        proof {
            vstd::seq_lib::to_multiset_insert(done, p as int, c);
            assert(sorted@.to_multiset().add(population@.to_multiset()) =~= done.to_multiset().add(
                rest.to_multiset(),
            ));
            assert forall|i: int, j: int| 0 <= i <= j < sorted.len() implies sorted@[i].makespan.unwrap()
                <= sorted@[j].makespan.unwrap() by {
                let i0 = if i < p {
                    i
                } else {
                    i - 1
                };
                let j0 = if j < p {
                    j
                } else {
                    j - 1
                };
                if i != p && j != p {
                    assert(sorted@[i] == done[i0] && sorted@[j] == done[j0]);
                } else if i == p && j != p {
                    assert(sorted@[j] == done[j0]);
                    if p < done.len() {
                        assert(done[p as int].makespan.unwrap() <= done[j0].makespan.unwrap());
                    }
                } else if j == p && i != p {
                    assert(sorted@[i] == done[i0]);
                }
            }
            assert forall|i: int| 0 <= i < sorted.len() implies (
            #[trigger] sorted@[i]).makespan.is_some() by {
                if i < p {
                    assert(sorted@[i] == done[i]);
                } else if i > p {
                    assert(sorted@[i] == done[i - 1]);
                }
            }
        }
    }
    proof {
        assert(population@.to_multiset() =~= vstd::multiset::Multiset::empty()) by {
            vstd::seq_lib::to_multiset_len(population@);
        }
        assert(sorted@.to_multiset() =~= old(population)@.to_multiset());
    }
    *population = sorted;
}

/// The winner of a tournament once the draws are made: the first of the
/// `candidates` with the lowest makespan if `take_best` says so, else the
/// candidate at `random_pick`.
pub fn settle_tournament(
    pop: &Vec<Chromosome>,
    candidates: &Vec<usize>,
    take_best: bool,
    random_pick: usize,
) -> (r: usize)
    requires
        candidates.len() >= 1,
        random_pick < candidates.len(),
        forall|j: int| 0 <= j < candidates.len() ==> (#[trigger] candidates@[j]) < pop.len(),
        forall|i: int| 0 <= i < pop.len() ==> (#[trigger] pop@[i]).makespan.is_some(),
    ensures
        r < pop.len(),
        !take_best ==> r == candidates@[random_pick as int],
        take_best ==> exists|j: int|
            is_first_minimum(entrants(pop@, candidates@), j) && r == #[trigger] candidates@[j],
{
    if !take_best {
        return candidates[random_pick];
    }
    let ghost values = entrants(pop@, candidates@);
    let mut best: usize = 0;
    let mut j: usize = 1;
    while j < candidates.len()
        invariant
            1 <= j <= candidates.len(),
            best < j,
            values == entrants(pop@, candidates@),
            forall|j: int| 0 <= j < candidates.len() ==> (#[trigger] candidates@[j]) < pop.len(),
            forall|i: int| 0 <= i < pop.len() ==> (#[trigger] pop@[i]).makespan.is_some(),
            forall|i: int| 0 <= i < j ==> values[best as int] <= #[trigger] values[i],
            forall|i: int| 0 <= i < best ==> #[trigger] values[i] > values[best as int],
        decreases candidates.len() - j,
    {
        assert(candidates@[j as int] < pop.len());
        assert(candidates@[best as int] < pop.len());
        if pop[candidates[j]].makespan.unwrap() < pop[candidates[best]].makespan.unwrap() {
            best = j;
        }
        j += 1;
    }
    assert(is_first_minimum(values, best as int));
    assert(candidates@[best as int] < pop.len());
    candidates[best]
}

/// The makespans of the chromosomes that take part in a tournament.
pub open spec fn entrants(pop: Seq<Chromosome>, candidates: Seq<usize>) -> Seq<int> {
    Seq::new(candidates.len(), |j: int| pop[candidates[j] as int].makespan.unwrap() as int)
}

/// Evaluates the chromosomes of `pool` that have changed.
pub fn evaluate_all(pool: &mut Vec<Chromosome>, makespan: &mut Makespan)
    requires
        old(makespan).instance@.well_formed(),
        all_bred(old(pool)@, old(makespan).instance@),
    ensures
        all_evaluated(final(pool)@, old(makespan).instance@),
        final(pool).len() == old(pool).len(),
        forall|i: int|
            0 <= i < old(pool).len() ==> (#[trigger] final(pool)@[i]).jobs@ == old(pool)@[i].jobs@,
        forall|i: int|
            0 <= i < old(pool).len() && !old(pool)@[i].updated ==> #[trigger] final(pool)@[i]
                == old(pool)@[i],
        evaluated_from(old(pool)@, final(pool)@, old(makespan).instance@),
        final(makespan).instance == old(makespan).instance,
        final(makespan).count >= old(makespan).count,
{
    let ghost inst = makespan.instance@;
    let mut i: usize = 0;
    while i < pool.len()
        invariant
            i <= pool.len(),
            inst == makespan.instance@,
            inst.well_formed(),
            makespan.instance == old(makespan).instance,
            makespan.count >= old(makespan).count,
            pool.len() == old(pool).len(),
            all_bred(pool@, inst),
            forall|k: int|
                0 <= k < pool.len() ==> (#[trigger] pool@[k]).jobs@ == old(pool)@[k].jobs@,
            forall|k: int|
                0 <= k < pool.len() && !old(pool)@[k].updated ==> #[trigger] pool@[k] == old(
                    pool,
                )@[k],
            forall|k: int| i <= k < pool.len() ==> #[trigger] pool@[k] == old(pool)@[k],
            forall|k: int| 0 <= k < i ==> (#[trigger] pool@[k]).evaluated(inst),
        decreases pool.len() - i,
    {
        if pool[i].updated {
            proof {
                lemma_partial_length(pool@[i as int].jobs@, inst.jobs);
            }
            let ghost before = pool@;
            pool[i].makespan(makespan);
            assert forall|k: int| 0 <= k < pool.len() implies is_permutation(
                (#[trigger] pool@[k]).jobs@,
                inst.jobs,
            ) && (pool@[k].updated || pool@[k].evaluated(inst)) by {
                if k != i {
                    assert(pool@[k] == before[k]);
                } else {
                    assert(is_permutation(before[k].jobs@, inst.jobs));
                }
            }
        }
        i += 1;
    }
}

/// Puts `c` into `population`, which is ordered by ascending makespan,
/// behind the chromosomes that are not worse than it.
pub fn insert_sorted(population: &mut Vec<Chromosome>, c: Chromosome)
    requires
        c.makespan.is_some(),
        forall|i: int|
            0 <= i < old(population).len() ==> (#[trigger] old(population)@[i]).makespan.is_some(),
        ascending_makespans(old(population)@),
    ensures
        exists|p: int|
            0 <= p <= old(population).len() && final(population)@ == #[trigger] old(
                population,
            )@.insert(p, c),
        ascending_makespans(final(population)@),
{
    let ghost before = population@;
    let mut p: usize = population.len();
    while p > 0 && population[p - 1].makespan.unwrap() > c.makespan.unwrap()
        invariant
            p <= population.len(),
            population@ == before,
            c.makespan.is_some(),
            forall|i: int| 0 <= i < before.len() ==> (#[trigger] before[i]).makespan.is_some(),
            forall|i: int|
                p <= i < before.len() ==> (#[trigger] before[i]).makespan.unwrap()
                    > c.makespan.unwrap(),
        decreases p,
    {
        p -= 1;
    }
    population.insert(p, c);
    proof {
        assert(population@ == before.insert(p as int, c));
        assert forall|i: int, j: int| 0 <= i <= j < population.len() implies population@[i].makespan.unwrap()
            <= population@[j].makespan.unwrap() by {
            let i0 = if i < p {
                i
            } else {
                i - 1
            };
            let j0 = if j < p {
                j
            } else {
                j - 1
            };
            if i != p && j != p {
                assert(population@[i] == before[i0] && population@[j] == before[j0]);
            } else if i == p && j != p {
                assert(population@[j] == before[j0]);
            } else if j == p && i != p {
                assert(population@[i] == before[i0]);
                if p > 0 {
                    assert(before[i0].makespan.unwrap() <= before[p - 1].makespan.unwrap());
                }
            }
        }
    }
}

/// Tells whether a chromosome of `population` has the job order `jobs`.
pub fn holds_order(population: &Vec<Chromosome>, jobs: &Vec<u32>) -> (r: bool)
    ensures
        r == exists|i: int| 0 <= i < population.len() && (#[trigger] population@[i]).jobs@ == jobs@,
{
    let mut i: usize = 0;
    while i < population.len()
        invariant
            i <= population.len(),
            forall|k: int| 0 <= k < i ==> (#[trigger] population@[k]).jobs@ != jobs@,
        decreases population.len() - i,
    {
        if same_row(&population[i].jobs, jobs) {
            return true;
        }
        i += 1;
    }
    false
}

/// For every chromosome of `before` there is one in `after` that is not
/// worse.
#[verifier::opaque]
pub open spec fn not_worse(after: Seq<Chromosome>, before: Seq<Chromosome>) -> bool {
    forall|i: int|
        0 <= i < before.len() ==> exists|k: int|
            0 <= k < after.len() && (#[trigger] after[k]).makespan.unwrap() <= (
            #[trigger] before[i]).makespan.unwrap()
}

/// What is not worse than something that is not worse is not worse.
pub proof fn lemma_not_worse_chain(c: Seq<Chromosome>, b: Seq<Chromosome>, a: Seq<Chromosome>)
    requires
        not_worse(c, b),
        not_worse(b, a),
    ensures
        not_worse(c, a),
{
    reveal(not_worse);
    assert forall|i: int| 0 <= i < a.len() implies exists|k: int|
        0 <= k < c.len() && (#[trigger] c[k]).makespan.unwrap() <= (
        #[trigger] a[i]).makespan.unwrap() by {
        let j = choose|j: int|
            0 <= j < b.len() && (#[trigger] b[j]).makespan.unwrap() <= a[i].makespan.unwrap();
        let k = choose|k: int|
            0 <= k < c.len() && (#[trigger] c[k]).makespan.unwrap() <= b[j].makespan.unwrap();
        assert(c[k].makespan.unwrap() <= a[i].makespan.unwrap());
    }
}

/// A population in another order is not worse.
pub proof fn lemma_not_worse_reordered(after: Seq<Chromosome>, before: Seq<Chromosome>)
    requires
        after.to_multiset() == before.to_multiset(),
    ensures
        not_worse(after, before),
        after.len() == before.len(),
{
    reveal(not_worse);
    lemma_same_members(after, before);
    assert forall|i: int| 0 <= i < before.len() implies exists|k: int|
        0 <= k < after.len() && (#[trigger] after[k]).makespan.unwrap() <= (
        #[trigger] before[i]).makespan.unwrap() by {
        assert(after.contains(before[i]));
        let k = choose|k: int| 0 <= k < after.len() && after[k] == before[i];
        assert(after[k].makespan.unwrap() <= before[i].makespan.unwrap());
    }
}

/// What holds of every chromosome of a population holds of every one of the
/// population in another order.
pub proof fn lemma_reordered_evaluated(
    after: Seq<Chromosome>,
    before: Seq<Chromosome>,
    inst: InstanceView,
)
    requires
        after.to_multiset() == before.to_multiset(),
        all_evaluated(before, inst),
    ensures
        all_evaluated(after, inst),
        after.len() == before.len(),
{
    lemma_same_members(before, after);
    assert forall|i: int| 0 <= i < after.len() implies is_permutation(
        (#[trigger] after[i]).jobs@,
        inst.jobs,
    ) && after[i].evaluated(inst) by {
        assert(before.contains(after[i]));
        let k = choose|k: int| 0 <= k < before.len() && before[k] == after[i];
        assert(is_permutation(before[k].jobs@, inst.jobs));
    }
}

/// Taking a chromosome out of an ordered population leaves it ordered.
pub proof fn lemma_remove_keeps_order(pop: Seq<Chromosome>, at: int)
    requires
        ascending_makespans(pop),
        0 <= at < pop.len(),
    ensures
        ascending_makespans(pop.remove(at)),
{
    let r = pop.remove(at);
    assert forall|i: int, j: int| 0 <= i <= j < r.len() implies r[i].makespan.unwrap()
        <= r[j].makespan.unwrap() by {
        let i0 = if i < at {
            i
        } else {
            i + 1
        };
        let j0 = if j < at {
            j
        } else {
            j + 1
        };
        assert(r[i] == pop[i0] && r[j] == pop[j0]);
    }
}

/// Tells whether `c` is a permutation of the jobs of the engine's instance
/// that carries its true makespan. The engine runs one simulation for it,
/// unless the answer is plain without.
pub fn is_evaluated(c: &Chromosome, engine: &mut Makespan) -> (r: bool)
    requires
        old(engine).instance@.well_formed(),
    ensures
        r == (is_permutation(c.jobs@, old(engine).instance@.jobs) && c.evaluated(
            old(engine).instance@,
        )),
        final(engine).instance == old(engine).instance,
        final(engine).count >= old(engine).count,
{
    if !check_permutation(&c.jobs, engine.instance.jobs) || c.updated {
        return false;
    }
    match c.makespan {
        None => false,
        Some(cached) => {
            let (found, _) = engine.makespan(&c.jobs);
            found == cached
        },
    }
}

/// Tells whether every chromosome of `pop` is a permutation of the jobs of
/// `instance` that carries its true makespan.
pub fn check_evaluated(pop: &Vec<Chromosome>, instance: &Instance) -> (r: bool)
    requires
        instance@.well_formed(),
    ensures
        r == all_evaluated(pop@, instance@),
{
    let mut engine = Makespan::new(instance);
    let mut i: usize = 0;
    while i < pop.len()
        invariant
            i <= pop.len(),
            engine.instance@ == instance@,
            instance@.well_formed(),
            forall|k: int|
                0 <= k < i ==> is_permutation((#[trigger] pop@[k]).jobs@, instance@.jobs)
                    && pop@[k].evaluated(instance@),
        decreases pop.len() - i,
    {
        if !is_evaluated(&pop[i], &mut engine) {
            return false;
        }
        i += 1;
    }
    true
}

/// Tells whether every chromosome of `pop` is a permutation of the jobs of
/// `instance` that is marked as changed or carries its true makespan.
pub fn check_bred(pop: &Vec<Chromosome>, instance: &Instance) -> (r: bool)
    requires
        instance@.well_formed(),
    ensures
        r == all_bred(pop@, instance@),
{
    let mut engine = Makespan::new(instance);
    let mut i: usize = 0;
    while i < pop.len()
        invariant
            i <= pop.len(),
            engine.instance@ == instance@,
            instance@.well_formed(),
            forall|k: int|
                0 <= k < i ==> is_permutation((#[trigger] pop@[k]).jobs@, instance@.jobs) && (
                pop@[k].updated || pop@[k].evaluated(instance@)),
        decreases pop.len() - i,
    {
        if pop[i].updated {
            if !check_permutation(&pop[i].jobs, instance.jobs) {
                return false;
            }
        } else if !is_evaluated(&pop[i], &mut engine) {
            return false;
        }
        i += 1;
    }
    true
}

/// Tells whether every chromosome of `pop` carries a makespan and the
/// makespans never decrease along `pop`.
pub fn is_ascending(pop: &Vec<Chromosome>) -> (r: bool)
    ensures
        r == ((forall|i: int| 0 <= i < pop.len() ==> (#[trigger] pop@[i]).makespan.is_some())
            && ascending_makespans(pop@)),
{
    let mut i: usize = 0;
    while i < pop.len()
        invariant
            i <= pop.len(),
            forall|k: int| 0 <= k < i ==> (#[trigger] pop@[k]).makespan.is_some(),
            forall|a: int, b: int|
                0 <= a <= b < i ==> pop@[a].makespan.unwrap() <= pop@[b].makespan.unwrap(),
        decreases pop.len() - i,
    {
        if pop[i].makespan.is_none() {
            return false;
        }
        if i > 0 && pop[i - 1].makespan.unwrap() > pop[i].makespan.unwrap() {
            assert(!(pop@[i - 1].makespan.unwrap() <= pop@[i as int].makespan.unwrap()));
            return false;
        }
        assert forall|a: int, b: int| 0 <= a <= b < i + 1 implies pop@[a].makespan.unwrap()
            <= pop@[b].makespan.unwrap() by {
            if b == i && a < i {
                assert(pop@[a].makespan.unwrap() <= pop@[i - 1].makespan.unwrap());
            }
        }
        i += 1;
    }
    true
}

/// Puts `c` into the ordered `population` in place of the chromosome at
/// `at`. If that one is not better than `c`, the population is then not
/// worse than before.
pub fn swap_in(population: &mut Vec<Chromosome>, at: usize, c: Chromosome)
    requires
        at < old(population).len(),
        c.makespan.is_some(),
        forall|i: int|
            0 <= i < old(population).len() ==> (#[trigger] old(population)@[i]).makespan.is_some(),
        ascending_makespans(old(population)@),
    ensures
        final(population).len() == old(population).len(),
        ascending_makespans(final(population)@),
        c.makespan.unwrap() <= old(population)@[at as int].makespan.unwrap() ==> not_worse(
            final(population)@,
            old(population)@,
        ),
        final(population)@.to_multiset() == old(population)@.remove(at as int).to_multiset().insert(
            c,
        ),
        forall|i: int|
            0 <= i < final(population).len() ==> #[trigger] final(population)@[i] == c || old(
                population,
            )@.contains(final(population)@[i]),
{
    let ghost start = population@;
    population.remove(at);
    let ghost reduced = population@;
    proof {
        lemma_remove_keeps_order(start, at as int);
        assert forall|i: int| 0 <= i < reduced.len() implies (
        #[trigger] reduced[i]).makespan.is_some() && start.contains(reduced[i]) by {
            let i0 = if i < at {
                i
            } else {
                i + 1
            };
            assert(reduced[i] == start[i0]);
        }
    }
    insert_sorted(population, c);
    proof {
        let p = choose|p: int|
            0 <= p <= reduced.len() && population@ == #[trigger] reduced.insert(p, c);
        let after = population@;
        reveal(not_worse);
        vstd::seq_lib::to_multiset_insert(reduced, p, c);
        assert forall|i: int| 0 <= i < after.len() implies #[trigger] after[i] == c
            || start.contains(after[i]) by {
            if i < p {
                assert(after[i] == reduced[i]);
            } else if i > p {
                assert(after[i] == reduced[i - 1]);
            }
        }
        assert forall|i: int|
            0 <= i < start.len() && c.makespan.unwrap() <= start[at as int].makespan.unwrap()
            implies exists|k: int|
            0 <= k < after.len() && (#[trigger] after[k]).makespan.unwrap() <= (
            #[trigger] start[i]).makespan.unwrap() by {
            if i == at {
                assert(after[p].makespan.unwrap() <= start[i].makespan.unwrap());
            } else {
                let r = if i < at {
                    i
                } else {
                    i - 1
                };
                assert(reduced[r] == start[i]);
                let k = if r < p {
                    r
                } else {
                    r + 1
                };
                assert(after[k] == reduced[r]);
                assert(after[k].makespan.unwrap() <= start[i].makespan.unwrap());
            }
        }
    }
}

} // verus!
