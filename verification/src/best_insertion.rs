//! Best insertion: a block of jobs is tried at every place of a schedule,
//! and the place with the lowest makespan is taken, or, where that is wanted,
//! now and then a random one.

use crate::makespan::{add_count, Makespan};
use crate::params::{KEEP_BEST, PER_MILLE};
use crate::random::{chance, draw_below, pick};
use crate::schedule::makespan_of;
use rand::rngs::StdRng;
use vstd::prelude::*;

verus! {

/// `jobs` with `block` put in front of its job at place `p`.
pub open spec fn placed(jobs: Seq<u32>, block: Seq<u32>, p: int) -> Seq<u32> {
    jobs.take(p) + block + jobs.skip(p)
}

/// The makespan of `jobs` with `block` at each of its places.
pub open spec fn block_costs(
    inst: crate::instance::InstanceView,
    jobs: Seq<u32>,
    block: Seq<u32>,
) -> Seq<int> {
    Seq::new(jobs.len() + 1, |p: int| makespan_of(inst, placed(jobs, block, p)))
}

/// No place gives a lower makespan than place `p`.
pub open spec fn is_least_cost(
    inst: crate::instance::InstanceView,
    jobs: Seq<u32>,
    block: Seq<u32>,
    p: int,
) -> bool {
    forall|q: int|
        0 <= q <= jobs.len() ==> block_costs(inst, jobs, block)[p] <= #[trigger] block_costs(
            inst,
            jobs,
            block,
        )[q]
}

/// `low` is the least of `costs`, and `places` lists, in ascending order,
/// the places at which it is found.
pub open spec fn is_best_set(costs: Seq<u32>, low: u32, places: Seq<usize>) -> bool {
    &&& forall|p: int| 0 <= p < costs.len() ==> low <= #[trigger] costs[p]
    &&& places.len() >= 1
    &&& forall|i: int|
        0 <= i < places.len() ==> (#[trigger] places[i]) < costs.len() && costs[places[i] as int]
            == low
    &&& forall|i: int, j: int| 0 <= i < j < places.len() ==> places[i] < places[j]
    &&& forall|p: int|
        0 <= p < costs.len() && costs[p] == low ==> exists|i: int|
            0 <= i < places.len() && #[trigger] places[i] == p
}

/// Builds `jobs` with `block` at place `p`.
pub fn place_block(jobs: &Vec<u32>, block: &[u32], p: usize) -> (r: Vec<u32>)
    requires
        p <= jobs.len(),
        jobs.len() + block.len() <= usize::MAX,
    ensures
        r@ == placed(jobs@, block@, p as int),
{
    let mut r: Vec<u32> = Vec::with_capacity(jobs.len() + block.len());
    let mut i: usize = 0;
    while i < p
        invariant
            i <= p <= jobs.len(),
            r@ == jobs@.take(i as int),
        decreases p - i,
    {
        r.push(jobs[i]);
        i += 1;
    }
    let mut b: usize = 0;
    while b < block.len()
        invariant
            b <= block.len(),
            p <= jobs.len(),
            r@ == jobs@.take(p as int) + block@.take(b as int),
        decreases block.len() - b,
    {
        r.push(block[b]);
        b += 1;
    }
    assert(block@.take(block.len() as int) == block@);
    while i < jobs.len()
        invariant
            p <= i <= jobs.len(),
            r@ == jobs@.take(p as int) + block@ + jobs@.subrange(p as int, i as int),
        decreases jobs.len() - i,
    {
        r.push(jobs[i]);
        i += 1;
    }
    assert(jobs@.subrange(p as int, jobs.len() as int) == jobs@.skip(p as int));
    r
}

/// Evaluates `jobs` with `block` at each of its places, from the front to
/// the back, and returns the makespans.
pub fn scan_insertions(jobs: &Vec<u32>, block: &[u32], makespan: &mut Makespan) -> (r: Vec<u32>)
    requires
        old(makespan).instance@.well_formed(),
        1 <= jobs.len() + block.len() <= old(makespan).instance@.jobs,
        forall|i: int| 0 <= i < jobs.len() ==> #[trigger] jobs@[i] < old(makespan).instance@.jobs,
        forall|i: int|
            0 <= i < block.len() ==> #[trigger] block@[i] < old(makespan).instance@.jobs,
    ensures
        r.len() == jobs.len() + 1,
        forall|p: int|
            0 <= p <= jobs.len() ==> #[trigger] r@[p] == block_costs(
                old(makespan).instance@,
                jobs@,
                block@,
            )[p],
        final(makespan).instance == old(makespan).instance,
        final(makespan).count == add_count(old(makespan).count, (jobs.len() + 1) as nat),
{
    let ghost inst = makespan.instance@;
    let n_jobs: usize = jobs.len();
    let k: usize = block.len();
    let mut costs: Vec<u32> = Vec::with_capacity(n_jobs);
    let mut trial: Vec<u32> = place_block(jobs, block, 0);
    let mut p: usize = 0;
    while p < n_jobs
        invariant
            inst == makespan.instance@,
            inst.well_formed(),
            makespan.instance == old(makespan).instance,
            makespan.count == add_count(old(makespan).count, p as nat),
            n_jobs == jobs.len(),
            k == block.len(),
            1 <= n_jobs + k <= inst.jobs,
            forall|i: int| 0 <= i < jobs.len() ==> #[trigger] jobs@[i] < inst.jobs,
            forall|i: int| 0 <= i < block.len() ==> #[trigger] block@[i] < inst.jobs,
            p <= n_jobs,
            costs.len() == p,
            trial@ == placed(jobs@, block@, p as int),
            forall|q: int|
                0 <= q < p ==> #[trigger] costs@[q] == block_costs(inst, jobs@, block@)[q],
        decreases n_jobs - p,
    {
        proof {
            lemma_placed_jobs(jobs@, block@, p as int, inst.jobs);
        }
        let (cost, _) = makespan.makespan(&trial);
        costs.push(cost);
        // The job behind the block moves in front of it.
        let ghost before = trial@;
        let job = trial.remove(p + k);
        trial.insert(p, job);
        assert(trial@ =~= placed(jobs@, block@, p + 1)) by {
            let after = placed(jobs@, block@, p + 1);
            assert(job == jobs@[p as int]);
            assert(trial@.len() == after.len());
            assert forall|i: int| 0 <= i < after.len() implies trial@[i] == after[i] by {
                if i < p {
                    assert(trial@[i] == before[i]);
                } else if i == p {
                } else if i <= p + k {
                    assert(trial@[i] == before[i - 1]);
                } else {
                    assert(trial@[i] == before[i]);
                }
            }
        }
        p += 1;
    }
    proof {
        lemma_placed_jobs(jobs@, block@, p as int, inst.jobs);
    }
    let (cost, _) = makespan.makespan(&trial);
    costs.push(cost);
    costs
}

/// A schedule with a block put in names jobs of the instance if the schedule
/// and the block do.
pub proof fn lemma_placed_jobs(jobs: Seq<u32>, block: Seq<u32>, p: int, n: nat)
    requires
        0 <= p <= jobs.len(),
        forall|i: int| 0 <= i < jobs.len() ==> #[trigger] jobs[i] < n,
        forall|i: int| 0 <= i < block.len() ==> #[trigger] block[i] < n,
    ensures
        placed(jobs, block, p).len() == jobs.len() + block.len(),
        forall|i: int|
            0 <= i < placed(jobs, block, p).len() ==> #[trigger] placed(jobs, block, p)[i] < n,
{
    let s = placed(jobs, block, p);
    assert forall|i: int| 0 <= i < s.len() implies #[trigger] s[i] < n by {
        if i < p {
            assert(s[i] == jobs[i]);
        } else if i < p + block.len() {
            assert(s[i] == block[i - p]);
        } else {
            assert(s[i] == jobs[i - block.len()]);
        }
    }
}

/// The least of `costs` and the places at which it is found.
pub fn best_places(costs: &Vec<u32>) -> (r: (u32, Vec<usize>))
    requires
        costs.len() >= 1,
    ensures
        is_best_set(costs@, r.0, r.1@),
{
    let mut low: u32 = costs[0];
    let mut places: Vec<usize> = Vec::new();
    places.push(0);
    assert(is_best_set(costs@.take(1), low, places@)) by {
        assert(places@[0] == 0);
        assert(costs@.take(1)[0] == low);
    }
    let mut p: usize = 1;
    while p < costs.len()
        invariant
            1 <= p <= costs.len(),
            is_best_set(costs@.take(p as int), low, places@),
        decreases costs.len() - p,
    {
        let ghost seen = costs@.take(p as int);
        let ghost next = costs@.take(p + 1);
        let ghost old_places = places@;
        let cost = costs[p];
        if cost < low {
            low = cost;
            places = Vec::new();
            places.push(p);
            assert(is_best_set(next, low, places@)) by {
                assert forall|q: int| 0 <= q < next.len() implies low <= #[trigger] next[q] by {
                    if q < p {
                        assert(seen[q] == next[q]);
                    }
                }
                assert forall|q: int| 0 <= q < next.len() && next[q] == low implies exists|i: int|
                    0 <= i < places@.len() && #[trigger] places@[i] == q by {
                    if q < p {
                        assert(seen[q] == next[q]);
                    }
                    assert(places@[0] == p);
                }
            }
        } else if cost == low {
            places.push(p);
            assert(is_best_set(next, low, places@)) by {
                assert forall|q: int| 0 <= q < next.len() implies low <= #[trigger] next[q] by {
                    if q < p {
                        assert(seen[q] == next[q]);
                    }
                }
                assert forall|i: int| 0 <= i < places@.len() implies (#[trigger] places@[i])
                    < next.len() && next[places@[i] as int] == low by {
                    if i < old_places.len() {
                        assert(old_places[i] == places@[i]);
                        assert(seen[old_places[i] as int] == low);
                    }
                }
                assert forall|i: int, j: int| 0 <= i < j < places@.len() implies places@[i]
                    < places@[j] by {
                    assert(old_places[i] < seen.len());
                    if j < old_places.len() {
                        assert(old_places[i] < old_places[j]);
                    }
                }
                assert forall|q: int| 0 <= q < next.len() && next[q] == low implies exists|i: int|
                    0 <= i < places@.len() && #[trigger] places@[i] == q by {
                    if q < p {
                        assert(seen[q] == next[q]);
                        let i = choose|i: int|
                            0 <= i < old_places.len() && #[trigger] old_places[i] == q;
                        assert(places@[i] == q);
                    } else {
                        assert(places@[places@.len() - 1] == q);
                    }
                }
            }
        } else {
            assert(is_best_set(next, low, places@)) by {
                assert forall|q: int| 0 <= q < next.len() implies low <= #[trigger] next[q] by {
                    if q < p {
                        assert(seen[q] == next[q]);
                    }
                }
                assert forall|i: int| 0 <= i < places@.len() implies (#[trigger] places@[i])
                    < next.len() && next[places@[i] as int] == low by {
                    assert(seen[places@[i] as int] == low);
                }
                assert forall|q: int| 0 <= q < next.len() && next[q] == low implies exists|i: int|
                    0 <= i < places@.len() && #[trigger] places@[i] == q by {
                    assert(seen[q] == next[q]);
                }
            }
        }
        p += 1;
    }
    assert(costs@.take(costs.len() as int) == costs@);
    (low, places)
}

/// The place that a best insertion settles on once the draws are made:
/// `random_place` if `take_random` says so, else `tie_place`.
pub fn settle_insertion(
    jobs: &Vec<u32>,
    block: &[u32],
    costs: &Vec<u32>,
    take_random: bool,
    random_place: usize,
    tie_place: usize,
) -> (r: (Vec<u32>, u32))
    requires
        costs.len() == jobs.len() + 1,
        jobs.len() + block.len() <= usize::MAX,
        random_place <= jobs.len(),
        tie_place <= jobs.len(),
    ensures
        r.0@ == placed(
            jobs@,
            block@,
            if take_random {
                random_place as int
            } else {
                tie_place as int
            },
        ),
        r.1 == costs@[if take_random {
            random_place as int
        } else {
            tie_place as int
        }],
{
    let place = if take_random {
        random_place
    } else {
        tie_place
    };
    (place_block(jobs, block, place), costs[place])
}

/// Puts `block` into `jobs` at the place that gives the lowest makespan; of
/// several such places one is drawn. With `allow_rnd` a place drawn at
/// random among those behind the front is returned instead in about one
/// call out of five. Every place is tried, each by one simulation. Returns
/// the schedule and its makespan.
pub fn find_best_insertion(
    jobs: Vec<u32>,
    block: &[u32],
    makespan: &mut Makespan,
    allow_rnd: bool,
    rng: &mut StdRng,
) -> (r: (Vec<u32>, u32))
    requires
        old(makespan).instance@.well_formed(),
        jobs.len() >= 1,
        block.len() >= 1,
        jobs.len() + block.len() <= old(makespan).instance@.jobs,
        forall|i: int| 0 <= i < jobs.len() ==> #[trigger] jobs@[i] < old(makespan).instance@.jobs,
        forall|i: int|
            0 <= i < block.len() ==> #[trigger] block@[i] < old(makespan).instance@.jobs,
    ensures
        exists|p: int|
            0 <= p <= jobs.len() && r.0@ == placed(jobs@, block@, p) && r.1 == #[trigger] block_costs(
                old(makespan).instance@,
                jobs@,
                block@,
            )[p] && (is_least_cost(old(makespan).instance@, jobs@, block@, p) || (allow_rnd && p
                >= 1)),
        r.1 == makespan_of(old(makespan).instance@, r.0@),
        !allow_rnd ==> forall|q: int|
            0 <= q <= jobs.len() ==> r.1 <= #[trigger] block_costs(
                old(makespan).instance@,
                jobs@,
                block@,
            )[q],
        final(makespan).instance == old(makespan).instance,
        final(makespan).count == add_count(old(makespan).count, (jobs.len() + 1) as nat),
{
    let ghost inst = makespan.instance@;
    let n_jobs: usize = jobs.len();
    // The place that is returned when chance decides against the best one.
    let random_place: usize = draw_below(rng, n_jobs) + 1;
    let costs = scan_insertions(&jobs, block, makespan);
    let (low, places) = best_places(&costs);
    let take_random: bool = allow_rnd && !chance(rng, KEEP_BEST, PER_MILLE);
    let tie_place: usize = if take_random {
        places[0]
    } else {
        match pick(&places, rng) {
            Some(place) => place,
            None => places[0],
        }
    };
    proof {
        let i = choose|i: int| 0 <= i < places@.len() && places@[i] == tie_place;
        assert(places@[i] < costs@.len());
        let p = if take_random {
            random_place as int
        } else {
            tie_place as int
        };
        assert(costs@[p] == block_costs(inst, jobs@, block@)[p]);
        if !take_random {
            assert forall|q: int| 0 <= q <= jobs.len() implies block_costs(
                inst,
                jobs@,
                block@,
            )[p] <= #[trigger] block_costs(inst, jobs@, block@)[q] by {
                assert(low <= costs@[q]);
            }
            assert(is_least_cost(inst, jobs@, block@, p));
        }
        if !allow_rnd {
            assert forall|q: int| 0 <= q <= jobs.len() implies costs@[tie_place as int]
                <= #[trigger] block_costs(inst, jobs@, block@)[q] by {
                assert(low <= costs@[q]);
            }
        }
    }
    settle_insertion(&jobs, block, &costs, take_random, random_place, tie_place)
}

} // verus!
