//! The NEH construction: the jobs are taken by descending total processing
//! time, and each is put where the schedule built so far gets the lowest
//! makespan.

use crate::instance::{Instance, InstanceView};
use crate::makespan::{add_count, lemma_tries, tries, Makespan};
use crate::minimum::{first_minimum, is_first_minimum, lemma_first_minimum_is};
use crate::permutation::{
    is_partial_permutation, is_permutation, lemma_insert, lemma_permutation_covers,
};
use crate::schedule::makespan_of;
use vstd::prelude::*;

verus! {

/// The sum of the first `k` entries of `row`.
pub open spec fn row_total(row: Seq<u32>, k: nat) -> int
    decreases k,
{
    if k == 0 {
        0
    } else {
        row_total(row, (k - 1) as nat) + row[k - 1]
    }
}

/// The processing time of `job` over all stages.
pub open spec fn total_work(inst: InstanceView, job: int) -> int {
    row_total(inst.processing_times[job], inst.stages)
}

/// NEH takes job `a` before job `b`: `a` has more work, or as much and the
/// higher number.
pub open spec fn goes_before(inst: InstanceView, a: u32, b: u32) -> bool {
    total_work(inst, a as int) > total_work(inst, b as int) || (total_work(inst, a as int)
        == total_work(inst, b as int) && a > b)
}

/// `order` holds every job once, each before all that it goes before.
pub open spec fn is_neh_order(inst: InstanceView, order: Seq<u32>) -> bool {
    &&& is_permutation(order, inst.jobs)
    &&& forall|i: int, j: int| 0 <= i < j < order.len() ==> goes_before(inst, order[i], order[j])
}

/// The makespan of `schedule` with `job` put in at each place.
pub open spec fn insertion_costs(inst: InstanceView, schedule: Seq<u32>, job: u32) -> Seq<int> {
    Seq::new(schedule.len() + 1, |p: int| makespan_of(inst, schedule.insert(p, job)))
}

/// The first place at which `job` gives the lowest makespan.
pub open spec fn best_place(inst: InstanceView, schedule: Seq<u32>, job: u32) -> int {
    first_minimum(insertion_costs(inst, schedule, job))
}

/// The schedule that NEH has built from the first `k` jobs of `order`.
pub open spec fn neh_prefix(inst: InstanceView, order: Seq<u32>, k: nat) -> Seq<u32>
    decreases k,
{
    if k == 0 {
        Seq::<u32>::empty()
    } else {
        let before = neh_prefix(inst, order, (k - 1) as nat);
        before.insert(best_place(inst, before, order[k - 1]), order[k - 1])
    }
}

/// `jobs` is the NEH schedule of the instance.
pub open spec fn is_neh_schedule(inst: InstanceView, jobs: Seq<u32>) -> bool {
    exists|order: Seq<u32>|
        is_neh_order(inst, order) && jobs == #[trigger] neh_prefix(inst, order, inst.jobs)
}

/// Two orders in which NEH may take the jobs agree on their first `k`
/// jobs.
proof fn lemma_neh_orders_agree(inst: InstanceView, a: Seq<u32>, b: Seq<u32>, k: nat)
    requires
        is_neh_order(inst, a),
        is_neh_order(inst, b),
        inst.jobs <= u32::MAX,
        k <= inst.jobs,
    ensures
        forall|i: int| 0 <= i < k ==> a[i] == b[i],
    decreases k,
{
    if k > 0 {
        lemma_neh_orders_agree(inst, a, b, (k - 1) as nat);
        let i = k - 1;
        let x = a[i];
        let y = b[i];
        lemma_permutation_covers(b, inst.jobs);
        lemma_permutation_covers(a, inst.jobs);
        assert(b.contains(x));
        assert(a.contains(y));
        let p = choose|p: int| 0 <= p < b.len() && b[p] == x;
        let q = choose|q: int| 0 <= q < a.len() && a[q] == y;
        if p < i {
            assert(a[p] == b[p]);
            assert(a[p] == a[i]);
        }
        if q < i {
            assert(a[q] == b[q]);
            assert(b[q] == b[i]);
        }
        if p > i {
            assert(goes_before(inst, b[i], b[p]));
            if q > i {
                assert(goes_before(inst, a[i], a[q]));
            }
        }
        assert(p == i);
    }
}

/// Determinism: the instance alone decides the order in which NEH takes the
/// jobs, and with it the schedule that NEH builds. Two NEH schedules of one
/// instance are the same.
pub proof fn lemma_neh_determined(inst: InstanceView, first: Seq<u32>, second: Seq<u32>)
    requires
        inst.jobs <= u32::MAX,
        is_neh_schedule(inst, first),
        is_neh_schedule(inst, second),
    ensures
        first == second,
{
    let a = choose|order: Seq<u32>|
        is_neh_order(inst, order) && first == #[trigger] neh_prefix(inst, order, inst.jobs);
    let b = choose|order: Seq<u32>|
        is_neh_order(inst, order) && second == #[trigger] neh_prefix(inst, order, inst.jobs);
    lemma_neh_orders_agree(inst, a, b, inst.jobs);
    assert(a =~= b);
}

/// The total processing time of every job.
fn total_times(instance: &Instance) -> (r: Vec<u64>)
    requires
        instance@.well_shaped(),
    ensures
        r.len() == instance@.jobs,
        forall|j: int| 0 <= j < r.len() ==> #[trigger] r@[j] == total_work(instance@, j),
{
    let mut totals: Vec<u64> = Vec::with_capacity(instance.jobs as usize);
    let mut job: usize = 0;
    proof {
        instance.lemma_tables();
    }
    while job < instance.jobs as usize
        invariant
            instance@.well_shaped(),
            job <= instance@.jobs,
            totals.len() == job,
            instance.processing_times@.len() == instance.jobs,
            forall|j: int| 0 <= j < job ==> #[trigger] totals@[j] == total_work(instance@, j),
        decreases instance@.jobs - job,
    {
        proof {
            instance.lemma_tables();
        }
        let row = &instance.processing_times[job];
        let ghost model = instance@.processing_times[job as int];
        assert(model =~= row@) by {
            assert forall|s: int| 0 <= s < row@.len() implies model[s] == row@[s] by {
                assert(row@[s] == instance@.processing(job as int, s));
            }
        }
        let mut total: u64 = 0;
        let mut stage: usize = 0;
        while stage < row.len()
            invariant
                stage <= row.len(),
                row.len() <= u32::MAX,
                total == row_total(row@, stage as nat),
                total <= stage * u32::MAX,
            decreases row.len() - stage,
        {
            assert((stage + 1) * u32::MAX <= u32::MAX * u32::MAX) by (nonlinear_arith)
                requires
                    stage + 1 <= u32::MAX,
            ;
            total = total + row[stage] as u64;
            stage += 1;
        }
        totals.push(total);
        job += 1;
    }
    totals
}

/// The jobs by descending total processing time; among jobs of equal time
/// the one with the higher number comes first.
pub fn sort_jobs(instance: &Instance) -> (r: Vec<u32>)
    requires
        instance@.well_shaped(),
    ensures
        is_neh_order(instance@, r@),
{
    let totals = total_times(instance);
    let ghost inst = instance@;
    let mut order: Vec<u32> = Vec::with_capacity(instance.jobs as usize);
    let mut job: u32 = 0;
    while job < instance.jobs
        invariant
            inst == instance@,
            job <= instance.jobs,
            totals.len() == inst.jobs,
            forall|j: int| 0 <= j < totals.len() ==> #[trigger] totals@[j] == total_work(inst, j),
            order.len() == job,
            forall|i: int| 0 <= i < order.len() ==> #[trigger] order@[i] < job,
            order@.no_duplicates(),
            forall|i: int, j: int|
                0 <= i < j < order.len() ==> goes_before(inst, order@[i], order@[j]),
        decreases instance.jobs - job,
    {
        let t: u64 = totals[job as usize];
        let mut p: usize = order.len();
        while p > 0 && totals[order[p - 1] as usize] <= t
            invariant
                inst == instance@,
                job < instance.jobs,
                totals.len() == inst.jobs,
                forall|j: int|
                    0 <= j < totals.len() ==> #[trigger] totals@[j] == total_work(inst, j),
                t == total_work(inst, job as int),
                p <= order.len(),
                forall|i: int| 0 <= i < order.len() ==> #[trigger] order@[i] < job,
                forall|i: int|
                    p <= i < order.len() ==> total_work(inst, #[trigger] order@[i] as int) <= t,
            decreases p,
        {
            p -= 1;
        }
        let ghost before = order@;
        proof {
            assert(!before.contains(job)) by {
                if before.contains(job) {
                    let k = choose|k: int| 0 <= k < before.len() && before[k] == job;
                    assert(before[k] < job);
                }
            }
            lemma_insert(before, (job + 1) as nat, p as int, job);
        }
        order.insert(p, job);
        proof {
            assert forall|i: int, j: int| 0 <= i < j < order.len() implies goes_before(
                inst,
                order@[i],
                order@[j],
            ) by {
                if j < p {
                    assert(goes_before(inst, before[i], before[j]));
                } else if j == p {
                    assert(order@[i] == before[i]);
                    if i < p - 1 {
                        assert(goes_before(inst, before[i], before[p - 1]));
                    }
                } else if i < p {
                    assert(goes_before(inst, before[i], before[j - 1]));
                } else if i == p {
                    assert(order@[j] == before[j - 1]);
                    assert(before[j - 1] < job);
                } else {
                    assert(goes_before(inst, before[i - 1], before[j - 1]));
                }
            }
        }
        job += 1;
    }
    order
}

/// Puts `next_job` into `schedule` at the place that gives the lowest
/// makespan, of several such places at the first, and returns the new
/// schedule with its makespan. Every place is tried, each by one simulation.
pub fn insert_job(makespan: &mut Makespan, schedule: &Vec<u32>, next_job: &u32) -> (r: (
    Vec<u32>,
    u32,
))
    requires
        old(makespan).instance@.well_formed(),
        schedule.len() < old(makespan).instance@.jobs,
        forall|i: int| 0 <= i < schedule.len() ==> #[trigger] schedule@[i] < old(
            makespan,
        ).instance@.jobs,
        *next_job < old(makespan).instance@.jobs,
    ensures
        is_first_minimum(
            insertion_costs(old(makespan).instance@, schedule@, *next_job),
            best_place(old(makespan).instance@, schedule@, *next_job),
        ),
        r.0@ == schedule@.insert(
            best_place(old(makespan).instance@, schedule@, *next_job),
            *next_job,
        ),
        r.1 == makespan_of(old(makespan).instance@, r.0@),
        final(makespan).instance == old(makespan).instance,
        final(makespan).count == add_count(old(makespan).count, (schedule.len() + 1) as nat),
{
    let ghost inst = makespan.instance@;
    let ghost costs = insertion_costs(inst, schedule@, *next_job);
    let ghost mut at: int = 0;
    let mut best: (Vec<u32>, u32) = (Vec::new(), u32::MAX);
    let mut index: usize = 0;
    while index < schedule.len() + 1
        invariant
            inst == makespan.instance@,
            inst.well_formed(),
            makespan.instance == old(makespan).instance,
            makespan.count == add_count(old(makespan).count, index as nat),
            schedule.len() < inst.jobs,
            forall|i: int| 0 <= i < schedule.len() ==> #[trigger] schedule@[i] < inst.jobs,
            *next_job < inst.jobs,
            costs == insertion_costs(inst, schedule@, *next_job),
            index <= schedule.len() + 1,
            index > 0 ==> {
                &&& 0 <= at < index
                &&& best.0@ == schedule@.insert(at, *next_job)
                &&& best.1 == costs[at]
            },
            forall|i: int| 0 <= i < index ==> best.1 <= #[trigger] costs[i],
            forall|i: int| 0 <= i < at ==> #[trigger] costs[i] > best.1,
        decreases schedule.len() + 1 - index,
    {
        let mut test_schedule: Vec<u32> = schedule.clone();
        assert(test_schedule@ =~= schedule@);
        test_schedule.insert(index, *next_job);
        proof {
            let s = test_schedule@;
            assert forall|i: int| 0 <= i < s.len() implies #[trigger] s[i] < inst.jobs by {
                if i < index {
                    assert(s[i] == schedule@[i]);
                } else if i > index {
                    assert(s[i] == schedule@[i - 1]);
                }
            }
        }
        let (time, _) = makespan.makespan(&test_schedule);
        assert(time == costs[index as int]);
        if index == 0 || best.1 > time {
            best = (test_schedule, time);
            proof {
                at = index as int;
            }
        }
        index += 1;
    }
    proof {
        lemma_first_minimum_is(costs, at);
    }
    best
}

/// The NEH construction.
pub struct NEH {}

impl NEH {
    /// Builds a schedule of all jobs of the engine's instance: the jobs are
    /// taken by descending total processing time and each is put at its
    /// best place. Returns the schedule and its makespan.
    pub fn neh(makespan: &mut Makespan) -> (r: (Vec<u32>, u32))
        requires
            old(makespan).instance@.well_formed(),
        ensures
            exists|order: Seq<u32>|
                is_neh_order(old(makespan).instance@, order) && r.0@ == neh_prefix(
                    old(makespan).instance@,
                    order,
                    old(makespan).instance@.jobs,
                ),
            is_neh_schedule(old(makespan).instance@, r.0@),
            is_permutation(r.0@, old(makespan).instance@.jobs),
            r.1 == makespan_of(old(makespan).instance@, r.0@),
            final(makespan).instance == old(makespan).instance,
            final(makespan).count == add_count(
                old(makespan).count,
                tries(old(makespan).instance@.jobs),
            ),
            ({
                let jobs = old(makespan).instance@.jobs;
                old(makespan).count + jobs * (jobs + 1) / 2 <= u32::MAX ==> final(makespan).count
                    == old(makespan).count + jobs * (jobs + 1) / 2
            }),
    {
        let ghost inst = makespan.instance@;
        proof {
            lemma_tries(inst.jobs);
        }
        let job_order: Vec<u32> = sort_jobs(&makespan.instance);
        let ghost order = job_order@;
        let mut schedule: (Vec<u32>, u32) = (
            Vec::with_capacity(makespan.instance.jobs as usize),
            u32::MAX,
        );
        let mut k: usize = 0;
        while k < job_order.len()
            invariant
                inst == makespan.instance@,
                inst.well_formed(),
                makespan.instance == old(makespan).instance,
                makespan.count == add_count(old(makespan).count, tries(k as nat)),
                order == job_order@,
                is_neh_order(inst, order),
                k <= order.len(),
                schedule.0@ == neh_prefix(inst, order, k as nat),
                schedule.0.len() == k,
                is_partial_permutation(schedule.0@, inst.jobs),
                forall|x: u32|
                    schedule.0@.contains(x) ==> exists|i: int| 0 <= i < k && order[i] == x,
                k > 0 ==> schedule.1 == makespan_of(inst, schedule.0@),
            decreases order.len() - k,
        {
            let job: u32 = job_order[k];
            let ghost before = schedule.0@;
            proof {
                assert(order[k as int] < inst.jobs);
                if before.contains(job) {
                    let i = choose|i: int| 0 <= i < k && order[i] == job;
                    assert(order[i] == order[k as int]);
                }
            }
            schedule = insert_job(makespan, &schedule.0, &job);
            proof {
                assert(tries((k + 1) as nat) == tries(k as nat) + (k + 1));
                let p = best_place(inst, before, job);
                lemma_insert(before, inst.jobs, p, job);
                assert forall|x: u32| schedule.0@.contains(x) implies exists|i: int|
                    0 <= i < k + 1 && order[i] == x by {
                    let a = choose|a: int| 0 <= a < schedule.0@.len() && schedule.0@[a] == x;
                    if a == p {
                        assert(order[k as int] == x);
                    } else {
                        let a0 = if a < p {
                            a
                        } else {
                            a - 1
                        };
                        assert(before[a0] == x);
                        assert(before.contains(x));
                        let i = choose|i: int| 0 <= i < k && order[i] == x;
                        assert(0 <= i < k + 1 && order[i] == x);
                    }
                }
            }
            k += 1;
        }
        schedule
    }
}

} // verus!
