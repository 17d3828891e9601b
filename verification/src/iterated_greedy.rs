//! Iterated greedy: a schedule is improved by taking a few jobs out and
//! putting them back where the makespan is lowest, over and over.

use crate::makespan::{add_count, tries, Makespan};
use crate::minimum::is_first_minimum;
use crate::neh::{best_place, insert_job, insertion_costs, is_neh_schedule, NEH};
use crate::permutation::{
    count_below, holds, is_partial_permutation, is_permutation, lemma_count_below_len,
    lemma_insert, lemma_partial_length, lemma_remove, lemma_same_elements,
};
use crate::random::{draw_below, pick};
use crate::schedule::makespan_of;
use rand::rngs::StdRng;
use vstd::prelude::*;

verus! {

/// The settings of an iterated greedy search.
#[derive(Clone, Copy, Debug)]
pub struct Options {
    /// The temperature coefficient, in thousandths.
    pub temp: u32,
    /// The number of jobs that a round takes out.
    pub block_size: u32,
}

impl Default for Options {
    fn default() -> (r: Self)
        ensures
            r.temp == 500,
            r.block_size == 2,
    {
        Options { temp: 500, block_size: 2 }
    }
}

/// For each setting the values that a grid search tries.
pub struct OptionsGrid {
    pub temp: Vec<u32>,
    pub block_size: Vec<u32>,
}

impl Default for OptionsGrid {
    fn default() -> (r: Self)
        ensures
            r.temp@ == seq![100u32],
            r.block_size@ == seq![2u32],
    {
        OptionsGrid { temp: vec![100], block_size: vec![2] }
    }
}

impl OptionsGrid {
    /// All combinations of the values of the grid: for each temperature,
    /// in order, each block size.
    pub fn get_options(self) -> (r: Vec<Options>)
        requires
            self.temp.len() * self.block_size.len() <= usize::MAX,
        ensures
            r.len() == self.temp.len() * self.block_size.len(),
            forall|t: int, b: int|
                0 <= t < self.temp.len() && 0 <= b < self.block_size.len() ==> r@[t
                    * self.block_size.len() + b] == (Options {
                    temp: self.temp@[t],
                    block_size: self.block_size@[b],
                }),
    {
        let mut all: Vec<Options> = Vec::new();
        let width: usize = self.block_size.len();
        let mut t: usize = 0;
        while t < self.temp.len()
            invariant
                t <= self.temp.len(),
                width == self.block_size.len(),
                all.len() == t * width,
                forall|a: int, b: int|
                    0 <= a < t && 0 <= b < width ==> all@[a * width + b] == (Options {
                        temp: self.temp@[a],
                        block_size: self.block_size@[b],
                    }),
            decreases self.temp.len() - t,
        {
            let mut b: usize = 0;
            while b < width
                invariant
                    t < self.temp.len(),
                    width == self.block_size.len(),
                    b <= width,
                    all.len() == t * width + b,
                    forall|a: int, c: int|
                        0 <= a < t && 0 <= c < width ==> all@[a * width + c] == (Options {
                            temp: self.temp@[a],
                            block_size: self.block_size@[c],
                        }),
                    forall|c: int|
                        0 <= c < b ==> all@[t * width + c] == (Options {
                            temp: self.temp@[t as int],
                            block_size: self.block_size@[c],
                        }),
                decreases width - b,
            {
                let ghost before = all@;
                all.push(Options { temp: self.temp[t], block_size: self.block_size[b] });
                proof {
                    assert forall|a: int, c: int| 0 <= a < t && 0 <= c < width implies all@[a
                        * width + c] == (Options {
                        temp: self.temp@[a],
                        block_size: self.block_size@[c],
                    }) by {
                        assert(a * width + c < t * width) by (nonlinear_arith)
                            requires
                                0 <= a < t,
                                0 <= c < width,
                        ;
                        assert(all@[a * width + c] == before[a * width + c]);
                    }
                    assert forall|c: int| 0 <= c < b + 1 implies all@[t * width + c] == (Options {
                        temp: self.temp@[t as int],
                        block_size: self.block_size@[c],
                    }) by {
                        if c < b {
                            assert(all@[t * width + c] == before[t * width + c]);
                        }
                    }
                }
                b += 1;
            }
            proof {
                assert((t + 1) * width == t * width + width) by (nonlinear_arith);
                assert forall|a: int, c: int| 0 <= a < t + 1 && 0 <= c < width implies all@[a
                    * width + c] == (Options {
                    temp: self.temp@[a],
                    block_size: self.block_size@[c],
                }) by {
                    if a == t {
                        assert(all@[t * width + c] == (Options {
                            temp: self.temp@[t as int],
                            block_size: self.block_size@[c],
                        }));
                    }
                }
            }
            t += 1;
        }
        all
    }
}

/// Takes the job at a random place out of `schedule`. Returns what is left
/// and the job.
pub fn remove_random(schedule: &Vec<u32>, rng: &mut StdRng) -> (r: (Vec<u32>, u32))
    requires
        schedule.len() >= 1,
    ensures
        exists|i: int|
            0 <= i < schedule.len() && r.0@ == #[trigger] schedule@.remove(i) && r.1
                == schedule@[i],
{
    let mut new_schedule: Vec<u32> = schedule.clone();
    assert(new_schedule@ =~= schedule@);
    let job_index = draw_below(rng, schedule.len());
    let job = schedule[job_index];
    new_schedule.remove(job_index);
    assert(new_schedule@ == schedule@.remove(job_index as int));
    (new_schedule, job)
}

/// Takes out of `schedule` a job at random among those that `removed` does
/// not hold. Returns what is left and the job.
pub fn remove_fresh(schedule: &Vec<u32>, removed: &Vec<u32>, rng: &mut StdRng) -> (r: (
    Vec<u32>,
    u32,
))
    requires
        exists|i: int| 0 <= i < schedule.len() && !removed@.contains(#[trigger] schedule@[i]),
    ensures
        exists|i: int|
            0 <= i < schedule.len() && r.0@ == #[trigger] schedule@.remove(i) && r.1
                == schedule@[i],
        !removed@.contains(r.1),
{
    let mut fresh: Vec<usize> = Vec::new();
    let mut i: usize = 0;
    while i < schedule.len()
        invariant
            i <= schedule.len(),
            forall|k: int|
                0 <= k < fresh.len() ==> (#[trigger] fresh@[k]) < schedule.len()
                    && !removed@.contains(schedule@[fresh@[k] as int]),
            forall|j: int|
                0 <= j < i && !removed@.contains(#[trigger] schedule@[j]) ==> fresh@.contains(
                    j as usize,
                ),
        decreases schedule.len() - i,
    {
        let ghost before = fresh@;
        if !holds(removed, schedule[i]) {
            fresh.push(i);
            proof {
                assert(fresh@[fresh@.len() - 1] == i);
                assert forall|j: int|
                    0 <= j < i + 1 && !removed@.contains(
                        #[trigger] schedule@[j],
                    ) implies fresh@.contains(j as usize) by {
                    if j < i {
                        assert(before.contains(j as usize));
                        let k = choose|k: int| 0 <= k < before.len() && before[k] == j as usize;
                        assert(fresh@[k] == j as usize);
                    }
                }
            }
        }
        i += 1;
    }
    proof {
        let w = choose|w: int|
            0 <= w < schedule.len() && !removed@.contains(#[trigger] schedule@[w]);
        assert(fresh@.contains(w as usize));
    }
    let job_index: usize = match pick(&fresh, rng) {
        Some(place) => place,
        None => fresh[0],
    };
    proof {
        let k = choose|k: int| 0 <= k < fresh@.len() && fresh@[k] == job_index;
        assert(fresh@[k] < schedule.len());
    }
    let mut new_schedule: Vec<u32> = schedule.clone();
    assert(new_schedule@ =~= schedule@);
    let job = schedule[job_index];
    new_schedule.remove(job_index);
    assert(new_schedule@ == schedule@.remove(job_index as int));
    (new_schedule, job)
}

/// A sequence of distinct jobs all of which another one holds is not longer
/// than that one.
pub proof fn lemma_held_jobs(a: Seq<u32>, b: Seq<u32>, n: nat)
    requires
        is_partial_permutation(a, n),
        is_partial_permutation(b, n),
        n <= u32::MAX,
        forall|i: int| 0 <= i < a.len() ==> b.contains(#[trigger] a[i]),
    ensures
        a.len() <= b.len(),
{
    lemma_count_below_len(a, n);
    lemma_count_below_len(b, n);
    lemma_count_below_held(a, b, n);
}

proof fn lemma_count_below_held(a: Seq<u32>, b: Seq<u32>, bound: nat)
    requires
        forall|i: int| 0 <= i < a.len() ==> b.contains(#[trigger] a[i]),
    ensures
        count_below(a, bound) <= count_below(b, bound),
    decreases bound,
{
    if bound > 0 {
        lemma_count_below_held(a, b, (bound - 1) as nat);
        let v = (bound - 1) as u32;
        if a.contains(v) {
            let i = choose|i: int| 0 <= i < a.len() && a[i] == v;
            assert(b.contains(a[i]));
        }
    }
}

/// A job that is taken out of a sequence and put in again anywhere leaves
/// the same elements, each as often.
pub proof fn lemma_put_back(s: Seq<u32>, i: int, p: int)
    requires
        0 <= i < s.len(),
        0 <= p < s.len(),
    ensures
        s.remove(i).insert(p, s[i]).to_multiset() == s.to_multiset(),
{
    broadcast use vstd::multiset::group_multiset_axioms;

    vstd::seq_lib::to_multiset_remove(s, i);
    vstd::seq_lib::to_multiset_insert(s.remove(i), p, s[i]);
    vstd::seq_lib::to_multiset_contains(s, s[i]);
    assert(s.contains(s[i]));
    assert(s.remove(i).insert(p, s[i]).to_multiset() =~= s.to_multiset());
}

/// The number of simulations of one pass of the local search on a schedule
/// of `len` jobs: a fifth of the jobs are tried at every place.
pub open spec fn pass_cost(len: nat) -> nat {
    (len / 5) * len
}

/// The number of simulations of a local search of `passes` passes on a
/// schedule of `len` jobs: one for the schedule as it comes, and those of
/// the passes.
pub open spec fn search_cost(len: nat, passes: nat) -> nat {
    1 + passes * pass_cost(len)
}

/// No place gives the job at place `at` of `s` a makespan below `cost`.
pub open spec fn stays_put(
    inst: crate::instance::InstanceView,
    s: Seq<u32>,
    at: int,
    cost: int,
) -> bool {
    &&& 0 <= at < s.len()
    &&& forall|p: int|
        0 <= p < s.len() ==> cost <= #[trigger] insertion_costs(inst, s.remove(at), s[at])[p]
}

/// The jobs at the places `places` of `s` are a fifth of its jobs, and none
/// of them can be put at a place where the makespan is below `cost`.
pub open spec fn settled_at(
    inst: crate::instance::InstanceView,
    s: Seq<u32>,
    cost: int,
    places: Seq<int>,
) -> bool {
    &&& places.len() == s.len() / 5
    &&& places.no_duplicates()
    &&& forall|k: int| 0 <= k < places.len() ==> stays_put(inst, s, #[trigger] places[k], cost)
}

/// A local search can end with `s`: its last pass has taken a fifth of the
/// jobs out, one after the other, and found for none of them a place where
/// the makespan is below `cost`.
pub open spec fn is_settled(
    inst: crate::instance::InstanceView,
    s: Seq<u32>,
    cost: int,
) -> bool {
    exists|places: Seq<int>| #[trigger] settled_at(inst, s, cost, places)
}

/// A job whose best place gives no makespan below `cost` stays put.
proof fn lemma_stays_put(
    inst: crate::instance::InstanceView,
    s: Seq<u32>,
    at: int,
    cost: int,
)
    requires
        0 <= at < s.len(),
        is_first_minimum(
            insertion_costs(inst, s.remove(at), s[at]),
            best_place(inst, s.remove(at), s[at]),
        ),
        cost <= makespan_of(
            inst,
            s.remove(at).insert(best_place(inst, s.remove(at), s[at]), s[at]),
        ),
    ensures
        stays_put(inst, s, at, cost),
{
    let costs = insertion_costs(inst, s.remove(at), s[at]);
    let b = best_place(inst, s.remove(at), s[at]);
    assert(costs[b] == makespan_of(inst, s.remove(at).insert(b, s[at])));
    assert forall|p: int| 0 <= p < s.len() implies cost <= #[trigger] costs[p] by {
        assert(costs[b] <= costs[p]);
    }
}

/// One job more that stays put, at a place that is not yet among `places`.
proof fn lemma_settled_on(
    inst: crate::instance::InstanceView,
    s: Seq<u32>,
    cost: int,
    places: Seq<int>,
    taken: Seq<u32>,
    at: int,
)
    requires
        places.len() == taken.len(),
        places.no_duplicates(),
        forall|k: int|
            0 <= k < places.len() ==> stays_put(inst, s, #[trigger] places[k], cost) && s[places[k]]
                == taken[k],
        stays_put(inst, s, at, cost),
        !taken.contains(s[at]),
    ensures
        places.push(at).no_duplicates(),
        forall|k: int|
            0 <= k < places.len() + 1 ==> stays_put(inst, s, #[trigger] places.push(at)[k], cost)
                && s[places.push(at)[k]] == taken.push(s[at])[k],
{
    let longer = places.push(at);
    assert forall|a: int, b: int| 0 <= a < longer.len() && 0 <= b < longer.len() && a
        != b implies longer[a] != longer[b] by {
        if a < places.len() && b < places.len() {
            assert(places[a] != places[b]);
        } else if a < places.len() {
            assert(s[places[a]] == taken[a]);
            assert(taken.contains(taken[a]));
        } else {
            assert(s[places[b]] == taken[b]);
            assert(taken.contains(taken[b]));
        }
    }
    assert forall|k: int| 0 <= k < places.len() + 1 implies stays_put(
        inst,
        s,
        #[trigger] longer[k],
        cost,
    ) && s[longer[k]] == taken.push(s[at])[k] by {
        if k < places.len() {
            assert(longer[k] == places[k]);
        }
    }
}

/// `reading` is the count of an engine that stood at `begun` before a local
/// search made `first` of `start`: the search has run some passes, each of
/// which but the last has lowered the makespan, and the simulations of
/// these passes.
pub open spec fn is_first_reading(
    inst: crate::instance::InstanceView,
    start: Seq<u32>,
    first: Seq<u32>,
    begun: u32,
    reading: u32,
) -> bool {
    exists|passes: nat|
        passes >= 1 && passes + makespan_of(inst, first) <= makespan_of(inst, start) + 1
            && reading == add_count(begun, #[trigger] search_cost(start.len(), passes))
}

/// Local search by insertion: in every pass a fifth of the jobs, chosen at
/// random, are taken out one after the other and put back at their best
/// place; a move is kept if it lowers the makespan. The passes end with the
/// first that lowers nothing. Returns the schedule found and its makespan,
/// which is not higher than that of `schedule`.
pub fn iterative_improvement_insertion(
    makespan: &mut Makespan,
    schedule: &Vec<u32>,
    rng: &mut StdRng,
) -> (r: (Vec<u32>, u32))
    requires
        old(makespan).instance@.well_formed(),
        schedule.len() >= 1,
        is_partial_permutation(schedule@, old(makespan).instance@.jobs),
    ensures
        r.0@.to_multiset() == schedule@.to_multiset(),
        is_partial_permutation(r.0@, old(makespan).instance@.jobs),
        r.1 == makespan_of(old(makespan).instance@, r.0@),
        r.1 <= makespan_of(old(makespan).instance@, schedule@),
        is_settled(old(makespan).instance@, r.0@, r.1 as int),
        schedule.len() < 5 ==> r.0@ == schedule@ && final(makespan).count == add_count(
            old(makespan).count,
            1,
        ),
        exists|passes: nat|
            passes >= 1 && final(makespan).count == add_count(
                old(makespan).count,
                #[trigger] search_cost(schedule@.len(), passes),
            ),
        is_first_reading(
            old(makespan).instance@,
            schedule@,
            r.0@,
            old(makespan).count,
            final(makespan).count,
        ),
        final(makespan).instance == old(makespan).instance,
        final(makespan).count >= add_count(old(makespan).count, 1),
{
    let ghost inst = makespan.instance@;
    let ghost len = schedule@.len();
    let ghost passes: nat = 0;
    proof {
        lemma_partial_length(schedule@, inst.jobs);
        assert(search_cost(len, 0) == 1) by (nonlinear_arith)
            requires
                search_cost(len, 0) == 1 + 0 * pass_cost(len),
        ;
    }
    let mut improvement: bool = true;
    let n: usize = schedule.len() / 5;
    let (initial, _) = makespan.makespan(schedule);
    let start: Vec<u32> = schedule.clone();
    assert(start@ =~= schedule@);
    let mut current_schedule: (Vec<u32>, u32) = (start, initial);
    let ghost mut places: Seq<int> = Seq::empty();
    while improvement
        invariant
            !improvement ==> settled_at(
                inst,
                current_schedule.0@,
                current_schedule.1 as int,
                places,
            ),
            inst == makespan.instance@,
            inst.well_formed(),
            makespan.instance == old(makespan).instance,
            makespan.count >= add_count(old(makespan).count, 1),
            makespan.count == add_count(old(makespan).count, search_cost(len, passes)),
            len == schedule@.len(),
            improvement || passes >= 1,
            passes + current_schedule.1 <= makespan_of(inst, schedule@) + if improvement {
                0int
            } else {
                1int
            },
            n == 0 ==> current_schedule.0@ == schedule@,
            n == schedule.len() / 5,
            current_schedule.0@.to_multiset() == schedule@.to_multiset(),
            is_partial_permutation(current_schedule.0@, inst.jobs),
            current_schedule.0.len() == schedule.len(),
            schedule.len() <= inst.jobs,
            current_schedule.1 == makespan_of(inst, current_schedule.0@),
            current_schedule.1 <= makespan_of(inst, schedule@),
        decreases
                current_schedule.1 + if improvement {
                    1int
                } else {
                    0int
                },
    {
        improvement = false;
        let ghost pass_start = current_schedule.1;
        let ghost count_start = makespan.count;
        let mut jobs_removed: Vec<u32> = Vec::with_capacity(n);
        let mut tries: usize = 0;
        proof {
            assert(0 * len == 0) by (nonlinear_arith);
            places = Seq::empty();
        }
        while tries < n
            invariant
                !improvement ==> places.len() == tries && places.no_duplicates() && forall|k: int|
                    0 <= k < places.len() ==> stays_put(
                        inst,
                        current_schedule.0@,
                        #[trigger] places[k],
                        current_schedule.1 as int,
                    ) && current_schedule.0@[places[k]] == jobs_removed@[k],
                inst == makespan.instance@,
                inst.well_formed(),
                makespan.instance == old(makespan).instance,
                makespan.count >= add_count(old(makespan).count, 1),
                makespan.count == add_count(count_start, (tries * len) as nat),
                len == schedule@.len(),
                n == 0 ==> current_schedule.0@ == schedule@,
                n == schedule.len() / 5,
                tries <= n,
                jobs_removed.len() == tries,
                is_partial_permutation(jobs_removed@, inst.jobs),
                current_schedule.0@.to_multiset() == schedule@.to_multiset(),
                is_partial_permutation(current_schedule.0@, inst.jobs),
                current_schedule.0.len() == schedule.len(),
                schedule.len() <= inst.jobs,
                current_schedule.1 == makespan_of(inst, current_schedule.0@),
                current_schedule.1 <= makespan_of(inst, schedule@),
                current_schedule.1 <= pass_start,
                improvement ==> current_schedule.1 < pass_start,
            decreases n - tries,
        {
            let ghost current = current_schedule.0@;
            proof {
                if forall|i: int| 0 <= i < current.len() ==> jobs_removed@.contains(current[i]) {
                    lemma_held_jobs(current, jobs_removed@, inst.jobs);
                }
            }
            let destroyed = remove_fresh(&current_schedule.0, &jobs_removed, rng);
            let ghost at = choose|i: int|
                0 <= i < current.len() && destroyed.0@ == #[trigger] current.remove(i)
                    && destroyed.1 == current[i];
            proof {
                lemma_remove(current, inst.jobs, at);
                let grown = jobs_removed@.push(destroyed.1);
                assert(is_partial_permutation(grown, inst.jobs)) by {
                    assert forall|a: int, b: int|
                        0 <= a < grown.len() && 0 <= b < grown.len() && a != b implies grown[a]
                        != grown[b] by {
                        if a == grown.len() - 1 {
                            assert(jobs_removed@.contains(grown[b]) || b == a);
                            assert(jobs_removed@[b] == grown[b]);
                        } else if b == grown.len() - 1 {
                            assert(jobs_removed@[a] == grown[a]);
                        } else {
                            assert(jobs_removed@[a] == grown[a] && jobs_removed@[b] == grown[b]);
                        }
                    }
                    assert forall|a: int| 0 <= a < grown.len() implies #[trigger] grown[a]
                        < inst.jobs by {
                        if a < jobs_removed@.len() {
                            assert(jobs_removed@[a] == grown[a]);
                        }
                    }
                }
            }
            jobs_removed.push(destroyed.1);
            let new_schedule = insert_job(makespan, &destroyed.0, &destroyed.1);
            proof {
                let p = best_place(inst, destroyed.0@, destroyed.1);
                lemma_insert(destroyed.0@, inst.jobs, p, destroyed.1);
                lemma_put_back(current, at, p);
            }
            let ghost taken = jobs_removed@.drop_last();
            if new_schedule.1 < current_schedule.1 {
                current_schedule = new_schedule;
                improvement = true;
            } else {
                proof {
                    if !improvement {
                        assert(taken =~= jobs_removed@.take(tries as int));
                        assert(jobs_removed@ =~= taken.push(current[at]));
                        lemma_stays_put(inst, current, at, current_schedule.1 as int);
                        lemma_settled_on(
                            inst,
                            current,
                            current_schedule.1 as int,
                            places,
                            taken,
                            at,
                        );
                        places = places.push(at);
                    }
                }
            }
            proof {
                assert((tries + 1) * len == tries * len + len) by (nonlinear_arith);
            }
            tries += 1;
        }
        proof {
            assert(tries * len == pass_cost(len));
            assert(search_cost(len, passes + 1) == search_cost(len, passes) + pass_cost(len))
                by (nonlinear_arith)
                requires
                    search_cost(len, passes + 1) == 1 + (passes + 1) * pass_cost(len),
                    search_cost(len, passes) == 1 + passes * pass_cost(len),
            ;
            passes = passes + 1;
        }
    }
    proof {
        if schedule.len() < 5 {
            assert(passes * pass_cost(len) == 0) by (nonlinear_arith)
                requires
                    pass_cost(len) == 0,
            ;
        }
        assert(passes >= 1 && passes + makespan_of(inst, current_schedule.0@) <= makespan_of(
            inst,
            schedule@,
        ) + 1 && makespan.count == add_count(old(makespan).count, search_cost(len, passes)));
    }
    current_schedule
}

/// Tells whether a search has used up its budget: by time, the time spent
/// has reached the time allowed; by count, the evaluations since the start
/// have reached the number allowed.
pub fn is_terminated(
    current_duration: u64,
    allowed_duration: u64,
    current_count: u32,
    start_count: u32,
    allowed_count: u32,
    by_time: bool,
) -> (r: bool)
    ensures
        r == if by_time {
            current_duration >= allowed_duration
        } else {
            current_count - start_count >= allowed_count
        },
{
    if by_time {
        current_duration >= allowed_duration
    } else {
        current_count >= start_count && current_count - start_count >= allowed_count
    }
}

/// `after` is `before` without the job at place `i`, which is `job`.
pub open spec fn is_removal(before: Seq<u32>, i: int, job: u32, after: Seq<u32>) -> bool {
    0 <= i < before.len() && before[i] == job && after == before.remove(i)
}

/// `reduced` is what is left of `current` when the jobs of `gone` are taken
/// out one after the other.
pub open spec fn taken_out(current: Seq<u32>, gone: Seq<u32>, reduced: Seq<u32>) -> bool
    decreases gone.len(),
{
    if gone.len() == 0 {
        reduced == current
    } else {
        exists|before: Seq<u32>, i: int|
            taken_out(current, gone.drop_last(), before) && #[trigger] is_removal(
                before,
                i,
                gone.last(),
                reduced,
            )
    }
}

/// `reduced` with the first `k` jobs of `gone` put back one after the
/// other, each at the first place that gives the lowest makespan.
pub open spec fn rebuilt(
    inst: crate::instance::InstanceView,
    reduced: Seq<u32>,
    gone: Seq<u32>,
    k: nat,
) -> Seq<u32>
    decreases k,
{
    if k == 0 {
        reduced
    } else {
        let before = rebuilt(inst, reduced, gone, (k - 1) as nat);
        before.insert(best_place(inst, before, gone[k - 1]), gone[k - 1])
    }
}

/// The number of simulations that it takes to put `k` jobs back into a
/// schedule of `base` jobs, each tried at every place.
pub open spec fn reinsert_cost(base: nat, k: nat) -> nat
    decreases k,
{
    if k == 0 {
        0
    } else {
        reinsert_cost(base, (k - 1) as nat) + base + k
    }
}

/// `found` is what a round can make of `current` by taking `d` jobs out and
/// putting them back: it holds the jobs of the rebuilt schedule, and its
/// makespan `cost` is not higher than that of the rebuilt schedule.
pub open spec fn is_round(
    inst: crate::instance::InstanceView,
    current: Seq<u32>,
    d: nat,
    found: Seq<u32>,
    cost: int,
) -> bool {
    exists|gone: Seq<u32>, reduced: Seq<u32>|
        {
            &&& gone.len() == d
            &&& #[trigger] taken_out(current, gone, reduced)
            &&& found.to_multiset() == rebuilt(inst, reduced, gone, d).to_multiset()
            &&& cost <= makespan_of(inst, rebuilt(inst, reduced, gone, d))
        }
}

/// One round of destruction and construction: `d` random jobs are taken out
/// of `current`, put back one after the other at their best places, and the
/// result is improved by insertion. Returns the schedule found and its
/// makespan.
pub fn destruct_construct(
    makespan: &mut Makespan,
    current: &Vec<u32>,
    d: u32,
    rng: &mut StdRng,
) -> (r: (Vec<u32>, u32))
    requires
        old(makespan).instance@.well_formed(),
        is_permutation(current@, old(makespan).instance@.jobs),
        d < old(makespan).instance@.jobs,
    ensures
        is_permutation(r.0@, old(makespan).instance@.jobs),
        r.1 == makespan_of(old(makespan).instance@, r.0@),
        is_round(old(makespan).instance@, current@, d as nat, r.0@, r.1 as int),
        is_settled(old(makespan).instance@, r.0@, r.1 as int),
        final(makespan).instance == old(makespan).instance,
        final(makespan).count >= add_count(
            old(makespan).count,
            (d + reinsert_cost((old(makespan).instance@.jobs - d) as nat, d as nat) + 1) as nat,
        ),
{
    let ghost inst = makespan.instance@;
    let ghost n = inst.jobs as int;
    let mut schedule_permutation: Vec<u32> = current.clone();
    assert(schedule_permutation@ =~= current@);
    let mut deleted_jobs: Vec<u32> = Vec::with_capacity(d as usize);
    let mut t: u32 = 0;
    while t < d
        invariant
            inst == makespan.instance@,
            inst.well_formed(),
            makespan.instance == old(makespan).instance,
            makespan.count == add_count(old(makespan).count, t as nat),
            taken_out(current@, deleted_jobs@, schedule_permutation@),
            n == inst.jobs,
            t <= d < n,
            deleted_jobs.len() == t,
            schedule_permutation.len() == n - t,
            is_partial_permutation(schedule_permutation@, inst.jobs),
            is_partial_permutation(deleted_jobs@, inst.jobs),
            forall|j: int|
                0 <= j < deleted_jobs.len() ==> !schedule_permutation@.contains(
                    #[trigger] deleted_jobs@[j],
                ),
        decreases d - t,
    {
        let ghost before = schedule_permutation@;
        let ghost gone = deleted_jobs@;
        let (reduced_schedule, deleted_job) = remove_random(&schedule_permutation, rng);
        let ghost at = choose|i: int|
            0 <= i < before.len() && reduced_schedule@ == #[trigger] before.remove(i)
                && deleted_job == before[i];
        proof {
            lemma_remove(before, inst.jobs, at);
            assert(before.contains(before[at]));
        }
        let _ = makespan.makespan(&reduced_schedule);
        schedule_permutation = reduced_schedule;
        deleted_jobs.push(deleted_job);
        proof {
            let grown = deleted_jobs@;
            assert(grown.drop_last() =~= gone);
            assert(taken_out(current@, grown.drop_last(), before));
            assert(is_removal(before, at, grown.last(), schedule_permutation@));
            assert(taken_out(current@, grown, schedule_permutation@));
            assert forall|j: int| 0 <= j < grown.len() implies !schedule_permutation@.contains(
                #[trigger] grown[j],
            ) && grown[j] < inst.jobs by {
                if j < gone.len() {
                    assert(grown[j] == gone[j]);
                    if schedule_permutation@.contains(gone[j]) {
                        let k = choose|k: int|
                            0 <= k < schedule_permutation@.len() && schedule_permutation@[k]
                                == gone[j];
                        let k0 = if k < at {
                            k
                        } else {
                            k + 1
                        };
                        assert(before[k0] == gone[j]);
                        assert(before.contains(gone[j]));
                    }
                }
            }
            assert forall|a: int, b: int|
                0 <= a < grown.len() && 0 <= b < grown.len() && a != b implies grown[a]
                != grown[b] by {
                if a < gone.len() && b < gone.len() {
                    assert(grown[a] == gone[a] && grown[b] == gone[b]);
                } else if a < gone.len() {
                    assert(grown[a] == gone[a]);
                    assert(!before.contains(gone[a]));
                } else {
                    assert(grown[b] == gone[b]);
                    assert(!before.contains(gone[b]));
                }
            }
        }
        t += 1;
    }
    let ghost gone = deleted_jobs@;
    let ghost reduced = schedule_permutation@;
    let mut k: usize = 0;
    while k < deleted_jobs.len()
        invariant
            inst == makespan.instance@,
            inst.well_formed(),
            makespan.instance == old(makespan).instance,
            makespan.count == add_count(
                old(makespan).count,
                (d + reinsert_cost((n - d) as nat, k as nat)) as nat,
            ),
            gone == deleted_jobs@,
            schedule_permutation@ == rebuilt(inst, reduced, gone, k as nat),
            n == inst.jobs,
            deleted_jobs.len() == d,
            d < n,
            k <= d,
            schedule_permutation.len() == n - d + k,
            is_partial_permutation(schedule_permutation@, inst.jobs),
            is_partial_permutation(deleted_jobs@, inst.jobs),
            forall|j: int|
                k <= j < deleted_jobs.len() ==> !schedule_permutation@.contains(
                    #[trigger] deleted_jobs@[j],
                ),
        decreases d - k,
    {
        let job: u32 = deleted_jobs[k];
        let ghost before = schedule_permutation@;
        assert(!before.contains(deleted_jobs@[k as int]));
        let (next, _) = insert_job(makespan, &schedule_permutation, &job);
        schedule_permutation = next;
        proof {
            assert(reinsert_cost((n - d) as nat, (k + 1) as nat) == reinsert_cost(
                (n - d) as nat,
                k as nat,
            ) + (n - d) + (k + 1));
            assert(schedule_permutation@ == rebuilt(inst, reduced, gone, (k + 1) as nat));
            let p = best_place(inst, before, job);
            lemma_insert(before, inst.jobs, p, job);
            assert forall|j: int| k + 1 <= j < deleted_jobs.len() implies !schedule_permutation@.contains(
                #[trigger] deleted_jobs@[j],
            ) by {
                if schedule_permutation@.contains(deleted_jobs@[j]) {
                    let a = choose|a: int|
                        0 <= a < schedule_permutation@.len() && schedule_permutation@[a]
                            == deleted_jobs@[j];
                    if a == p {
                        assert(deleted_jobs@[j] == deleted_jobs@[k as int]);
                    } else {
                        let a0 = if a < p {
                            a
                        } else {
                            a - 1
                        };
                        assert(before[a0] == deleted_jobs@[j]);
                        assert(before.contains(deleted_jobs@[j]));
                    }
                }
            }
        }
        k += 1;
    }
    let ghost rebuilt = schedule_permutation@;
    let r = iterative_improvement_insertion(makespan, &schedule_permutation, rng);
    proof {
        assert(taken_out(current@, gone, reduced));
        assert(is_round(inst, current@, d as nat, r.0@, r.1 as int));
        lemma_same_elements(rebuilt, r.0@, inst.jobs);
    }
    r
}

/// Judges the candidate of a round. A candidate that is better than the
/// current schedule takes its place, and that of the best one if it is
/// better than that too; any other candidate takes the place of the current
/// schedule if `uphill` says so.
pub fn settle_round(
    current: &mut (Vec<u32>, u32),
    best: &mut (Vec<u32>, u32),
    candidate: (Vec<u32>, u32),
    uphill: bool,
)
    ensures
        final(current).0@ == if candidate.1 < old(current).1 || uphill {
            candidate.0@
        } else {
            old(current).0@
        },
        final(current).1 == if candidate.1 < old(current).1 || uphill {
            candidate.1
        } else {
            old(current).1
        },
        final(best).0@ == if candidate.1 < old(current).1 && candidate.1 < old(best).1 {
            candidate.0@
        } else {
            old(best).0@
        },
        final(best).1 == if candidate.1 < old(current).1 && candidate.1 < old(best).1 {
            candidate.1
        } else {
            old(best).1
        },
{
    if current.1 > candidate.1 {
        if best.1 > candidate.1 {
            let copy = candidate.0.clone();
            assert(copy@ =~= candidate.0@);
            *best = (copy, candidate.1);
        }
        *current = candidate;
    } else if uphill {
        *current = candidate;
    }
}

/// Each schedule of `trail` but the first is what a round that takes `d`
/// jobs out can make of the one before it.
pub open spec fn is_trail(inst: crate::instance::InstanceView, d: nat, trail: Seq<Seq<u32>>) -> bool {
    forall|i: int|
        0 < i < trail.len() ==> is_round(
            inst,
            trail[i - 1],
            d,
            #[trigger] trail[i],
            makespan_of(inst, trail[i]),
        )
}

/// `found` is a schedule of `trail`, and none of `trail` has a lower
/// makespan.
pub open spec fn best_of_trail(
    inst: crate::instance::InstanceView,
    trail: Seq<Seq<u32>>,
    found: Seq<u32>,
) -> bool {
    &&& trail.contains(found)
    &&& forall|i: int|
        0 <= i < trail.len() ==> makespan_of(inst, found) <= makespan_of(inst, #[trigger] trail[i])
}

/// `trail` is the way of an iterated greedy search from `start` that ends
/// with `found`: it begins with a schedule of the jobs of `start` that is
/// not worse than `start`, goes on round by round, and `found` is the best
/// schedule on it.
pub open spec fn is_search_trail(
    inst: crate::instance::InstanceView,
    start: Seq<u32>,
    d: nat,
    trail: Seq<Seq<u32>>,
    found: Seq<u32>,
) -> bool {
    &&& trail.len() >= 1
    &&& trail[0].to_multiset() == start.to_multiset()
    &&& makespan_of(inst, trail[0]) <= makespan_of(inst, start)
    &&& is_trail(inst, d, trail)
    &&& best_of_trail(inst, trail, found)
}

/// The least number of simulations of a round that takes `d` of `jobs`
/// jobs out: those that take the jobs out and put them back, and one of the
/// local search that follows.
pub open spec fn round_cost(jobs: nat, d: nat) -> nat {
    (d + reinsert_cost((jobs - d) as nat, d) + 1) as nat
}

/// `readings` are the counts of the engine along a search that may run
/// `allowed` simulations from the first reading on: before every reading
/// but the last the count is below its top and the allowance is not used
/// up, so that a round follows, which runs at least `least` simulations;
/// at the last reading the count is at its top or the allowance is used
/// up.
pub open spec fn is_paced(readings: Seq<u32>, allowed: u32, least: nat) -> bool {
    &&& readings.len() >= 1
    &&& goes_on(readings, allowed, least)
    &&& readings.last() == u32::MAX || readings.last() - readings[0] >= allowed
}

/// Before every reading but the last the count is below its top and the
/// allowance is not used up, and the next reading is at least `least`
/// simulations on.
pub open spec fn goes_on(readings: Seq<u32>, allowed: u32, least: nat) -> bool {
    forall|i: int|
        0 <= i < readings.len() - 1 ==> (#[trigger] readings[i]) < u32::MAX && readings[i]
            - readings[0] < allowed && readings[i + 1] >= add_count(readings[i], least)
}

/// A search that goes on takes one reading more.
proof fn lemma_goes_on(read: Seq<u32>, next: u32, allowed: u32, least: nat)
    requires
        read.len() >= 1,
        goes_on(read, allowed, least),
        read.last() < u32::MAX,
        read.last() - read[0] < allowed,
        next >= add_count(read.last(), least),
    ensures
        goes_on(read.push(next), allowed, least),
{
    let readings = read.push(next);
    assert forall|i: int| 0 <= i < readings.len() - 1 implies (#[trigger] readings[i]) < u32::MAX
        && readings[i] - readings[0] < allowed && readings[i + 1] >= add_count(
        readings[i],
        least,
    ) by {
        assert(readings[0] == read[0]);
        if i < read.len() - 1 {
            assert(readings[i] == read[i]);
            assert(readings[i + 1] == read[i + 1]);
        } else {
            assert(readings[i] == read.last());
        }
    }
}

/// A round lengthens the trail by its candidate, and the best schedule of
/// the longer trail is the candidate if it is better than the best so far,
/// else the best so far.
proof fn lemma_trail_grows(
    inst: crate::instance::InstanceView,
    d: nat,
    so_far: Seq<Seq<u32>>,
    candidate: Seq<u32>,
    best_before: Seq<u32>,
    best_after: Seq<u32>,
)
    requires
        so_far.len() >= 1,
        is_trail(inst, d, so_far),
        best_of_trail(inst, so_far, best_before),
        is_round(inst, so_far.last(), d, candidate, makespan_of(inst, candidate)),
        best_after == if makespan_of(inst, candidate) < makespan_of(inst, best_before) {
            candidate
        } else {
            best_before
        },
    ensures
        is_trail(inst, d, so_far.push(candidate)),
        best_of_trail(inst, so_far.push(candidate), best_after),
{
    let trail = so_far.push(candidate);
    assert forall|i: int| 0 < i < trail.len() implies is_round(
        inst,
        trail[i - 1],
        d,
        #[trigger] trail[i],
        makespan_of(inst, trail[i]),
    ) by {
        if i < so_far.len() {
            assert(trail[i] == so_far[i]);
            assert(trail[i - 1] == so_far[i - 1]);
        } else {
            assert(trail[i - 1] == so_far.last());
        }
    }
    let at = choose|at: int| 0 <= at < so_far.len() && so_far[at] == best_before;
    assert(trail[at] == best_before);
    assert(trail[so_far.len() as int] == candidate);
    assert forall|i: int| 0 <= i < trail.len() implies makespan_of(inst, best_after)
        <= makespan_of(inst, #[trigger] trail[i]) by {
        if i < so_far.len() {
            assert(trail[i] == so_far[i]);
        }
    }
}

/// An iterated greedy search from `start` with rounds of `d` jobs and an
/// allowance of `allowed` simulations, on an engine whose count stood at
/// `begun` before and stands at `ended` after, has gone the way `trail`
/// and ends with `found`. `readings` holds the count of the engine at each
/// schedule of the trail: the first when `start` has been searched
/// locally, each other after the round that made the schedule.
pub open spec fn is_search(
    inst: crate::instance::InstanceView,
    start: Seq<u32>,
    d: nat,
    allowed: u32,
    begun: u32,
    ended: u32,
    trail: Seq<Seq<u32>>,
    readings: Seq<u32>,
    found: Seq<u32>,
) -> bool {
    &&& is_search_trail(inst, start, d, trail, found)
    &&& readings.len() == trail.len()
    &&& is_first_reading(inst, start, trail[0], begun, readings[0])
    &&& is_paced(readings, allowed, round_cost(inst.jobs, d))
    &&& readings.last() == ended
}

/// The number of jobs that a round takes out: that of the settings, or two
/// if there are none.
pub open spec fn round_size(option: Option<Options>) -> nat {
    if option.is_some() {
        option.unwrap().block_size as nat
    } else {
        2
    }
}

/// Iterated greedy search from `schedule`, or from the NEH schedule if none
/// is given: rounds of destruction and construction follow one another
/// until the engine has run `allowed_count` more simulations. The candidate
/// of a round always becomes the current schedule: if it is not better, the
/// acceptance rule with its positive temperature gives it a probability of
/// at least one. Returns the best schedule seen and its makespan.
#[verifier::rlimit(40)]
pub fn iterated_greedy(
    makespan: &mut Makespan,
    schedule: Option<(Vec<u32>, u32)>,
    allowed_count: u32,
    option: Option<Options>,
    rng: &mut StdRng,
) -> (r: (Vec<u32>, u32))
    requires
        old(makespan).instance@.well_formed(),
        schedule.is_some() ==> is_permutation(
            schedule.unwrap().0@,
            old(makespan).instance@.jobs,
        ),
        option.is_some() ==> option.unwrap().block_size < old(makespan).instance@.jobs,
        option.is_none() ==> 2 < old(makespan).instance@.jobs,
    ensures
        is_permutation(r.0@, old(makespan).instance@.jobs),
        r.1 == makespan_of(old(makespan).instance@, r.0@),
        schedule.is_some() ==> r.1 <= makespan_of(
            old(makespan).instance@,
            schedule.unwrap().0@,
        ),
        schedule.is_none() ==> exists|start: Seq<u32>|
            #[trigger] is_neh_schedule(old(makespan).instance@, start) && r.1 <= makespan_of(
                old(makespan).instance@,
                start,
            ),
        schedule.is_some() ==> exists|trail: Seq<Seq<u32>>, readings: Seq<u32>|
            #[trigger] is_search(
                old(makespan).instance@,
                schedule.unwrap().0@,
                round_size(option),
                allowed_count,
                old(makespan).count,
                final(makespan).count,
                trail,
                readings,
                r.0@,
            ),
        schedule.is_none() ==> exists|start: Seq<u32>, trail: Seq<Seq<u32>>, readings: Seq<u32>|
            is_neh_schedule(old(makespan).instance@, start) && #[trigger] is_search(
                old(makespan).instance@,
                start,
                round_size(option),
                allowed_count,
                add_count(old(makespan).count, tries(old(makespan).instance@.jobs)),
                final(makespan).count,
                trail,
                readings,
                r.0@,
            ),
        final(makespan).instance == old(makespan).instance,
        final(makespan).count >= add_count(old(makespan).count, (allowed_count + 1) as nat),
        schedule.is_none() ==> final(makespan).count >= add_count(
            old(makespan).count,
            (tries(old(makespan).instance@.jobs) + allowed_count + 1) as nat,
        ),
{
    let ghost inst = makespan.instance@;
    let start: (Vec<u32>, u32) = match schedule {
        Some(s) => s,
        None => NEH::neh(makespan),
    };
    let ghost begun = makespan.count;
    let ghost first_jobs = start.0@;
    let mut current_schedule = iterative_improvement_insertion(makespan, &start.0, rng);
    proof {
        lemma_same_elements(start.0@, current_schedule.0@, inst.jobs);
    }
    let first = current_schedule.0.clone();
    assert(first@ =~= current_schedule.0@);
    let mut best_schedule: (Vec<u32>, u32) = (first, current_schedule.1);
    let d: u32 = match option {
        Some(opt) => opt.block_size,
        None => Options::default().block_size,
    };
    let start_count: u32 = makespan.count;
    let ghost mut trail: Seq<Seq<u32>> = seq![current_schedule.0@];
    let ghost mut readings: Seq<u32> = seq![start_count];
    proof {
        assert(trail[0] == current_schedule.0@);
        assert(trail.contains(best_schedule.0@));
    }
    while makespan.count < u32::MAX && !is_terminated(
        0,
        0,
        makespan.count,
        start_count,
        allowed_count,
        false,
    )
        invariant
            d == round_size(option),
            readings.len() == trail.len(),
            readings[0] == start_count,
            readings.last() == makespan.count,
            is_first_reading(inst, first_jobs, trail[0], begun, start_count),
            goes_on(readings, allowed_count, round_cost(inst.jobs, d as nat)),
            trail.len() >= 1,
            trail.last() == current_schedule.0@,
            trail[0].to_multiset() == first_jobs.to_multiset(),
            makespan_of(inst, trail[0]) <= makespan_of(inst, first_jobs),
            is_trail(inst, d as nat, trail),
            best_of_trail(inst, trail, best_schedule.0@),
            inst == makespan.instance@,
            inst.well_formed(),
            makespan.instance == old(makespan).instance,
            makespan.count >= add_count(old(makespan).count, 1),
            d < inst.jobs,
            is_permutation(current_schedule.0@, inst.jobs),
            current_schedule.1 == makespan_of(inst, current_schedule.0@),
            is_permutation(best_schedule.0@, inst.jobs),
            best_schedule.1 == makespan_of(inst, best_schedule.0@),
            schedule.is_some() ==> best_schedule.1 <= makespan_of(inst, schedule.unwrap().0@),
            best_schedule.1 <= makespan_of(inst, first_jobs),
            start_count >= add_count(begun, 1),
            makespan.count >= start_count,
        decreases u32::MAX - makespan.count,
    {
        let new_schedule = destruct_construct(makespan, &current_schedule.0, d, rng);
        let ghost so_far = trail;
        let ghost read = readings;
        let ghost best_before = best_schedule.0@;
        let ghost candidate = new_schedule.0@;
        settle_round(&mut current_schedule, &mut best_schedule, new_schedule, true);
        proof {
            lemma_goes_on(
                read,
                makespan.count,
                allowed_count,
                round_cost(inst.jobs, d as nat),
            );
            readings = read.push(makespan.count);
            assert(readings[0] == read[0]);
            assert(makespan_of(inst, best_before) <= makespan_of(inst, so_far.last()));
            lemma_trail_grows(inst, d as nat, so_far, candidate, best_before, best_schedule.0@);
            trail = so_far.push(candidate);
            assert(trail[0] == so_far[0]);
        }
    }
    proof {
        if schedule.is_none() {
            assert(is_neh_schedule(inst, first_jobs));
        }
        assert(is_search_trail(inst, first_jobs, round_size(option), trail, best_schedule.0@));
        assert(is_paced(readings, allowed_count, round_cost(inst.jobs, d as nat)));
        assert(is_search(
            inst,
            first_jobs,
            round_size(option),
            allowed_count,
            begun,
            makespan.count,
            trail,
            readings,
            best_schedule.0@,
        ));
    }
    best_schedule
}

/// Iterated greedy as a solver of its own.
pub struct IteratedGreedy {}

} // verus!
