//! The mathematical model of a simulation: what the schedule of a job order
//! is, stage by stage, and what its makespan is.
//!
//! Times and jobs are kept as the pairs `(job, completion time)` that the
//! engine hands out.

use crate::instance::InstanceView;
use crate::minimum::{first_minimum, lemma_first_minimum_exists};
use vstd::prelude::*;

verus! {

/// What has happened at one stage: the run list of every machine, and the
/// completion of every job dispatched so far, in dispatch order.
pub struct StageState {
    pub runs: Seq<Seq<(u32, u32)>>,
    pub done: Seq<(u32, u32)>,
}

/// The later of two times.
pub open spec fn later_of(a: int, b: int) -> int {
    if a >= b {
        a
    } else {
        b
    }
}

/// The job a machine ran last and the time at which it is free again. A
/// machine that has not run yet counts as free at time 0 after `job` itself.
pub open spec fn machine_last(run: Seq<(u32, u32)>, job: u32) -> (u32, u32) {
    if run.len() == 0 {
        (job, 0u32)
    } else {
        run.last()
    }
}

/// The time at which `job`, ready at `ready`, would complete on the machine
/// with run list `run`. A job without processing time at the stage is
/// charged no setup.
pub open spec fn candidate_completion(
    inst: InstanceView,
    stage: int,
    job: u32,
    ready: u32,
    run: Seq<(u32, u32)>,
) -> int {
    let last = machine_last(run, job);
    let work = inst.processing(job as int, stage);
    later_of(last.1 as int, ready as int) + work + if work == 0 {
        0
    } else {
        inst.setup(stage, last.0 as int, job as int)
    }
}

/// Machine `m` completes the job first, and no machine before it does so as
/// early.
pub open spec fn is_chosen_machine(
    inst: InstanceView,
    stage: int,
    job: u32,
    ready: u32,
    runs: Seq<Seq<(u32, u32)>>,
    m: int,
) -> bool {
    &&& 0 <= m < runs.len()
    &&& forall|k: int|
        0 <= k < runs.len() ==> candidate_completion(inst, stage, job, ready, runs[m])
            <= candidate_completion(inst, stage, job, ready, #[trigger] runs[k])
    &&& forall|k: int|
        0 <= k < m ==> candidate_completion(inst, stage, job, ready, #[trigger] runs[k])
            > candidate_completion(inst, stage, job, ready, runs[m])
}

/// The machine that the job goes to.
pub open spec fn chosen_machine(
    inst: InstanceView,
    stage: int,
    job: u32,
    ready: u32,
    runs: Seq<Seq<(u32, u32)>>,
) -> int {
    choose|m: int| is_chosen_machine(inst, stage, job, ready, runs, m)
}

/// There is only one chosen machine.
pub proof fn lemma_chosen_machine_is(
    inst: InstanceView,
    stage: int,
    job: u32,
    ready: u32,
    runs: Seq<Seq<(u32, u32)>>,
    m: int,
)
    requires
        is_chosen_machine(inst, stage, job, ready, runs, m),
    ensures
        chosen_machine(inst, stage, job, ready, runs) == m,
{
    let c = chosen_machine(inst, stage, job, ready, runs);
    assert(is_chosen_machine(inst, stage, job, ready, runs, c));
    if c < m {
        assert(candidate_completion(inst, stage, job, ready, runs[c]) > candidate_completion(
            inst,
            stage,
            job,
            ready,
            runs[m],
        ));
    }
    if m < c {
        assert(candidate_completion(inst, stage, job, ready, runs[m]) > candidate_completion(
            inst,
            stage,
            job,
            ready,
            runs[c],
        ));
    }
}

/// With at least one machine, one of them is the chosen one.
pub proof fn lemma_chosen_machine_exists(
    inst: InstanceView,
    stage: int,
    job: u32,
    ready: u32,
    runs: Seq<Seq<(u32, u32)>>,
)
    requires
        runs.len() >= 1,
    ensures
        is_chosen_machine(
            inst,
            stage,
            job,
            ready,
            runs,
            chosen_machine(inst, stage, job, ready, runs),
        ),
{
    let values = Seq::new(
        runs.len(),
        |m: int| candidate_completion(inst, stage, job, ready, runs[m]),
    );
    lemma_first_minimum_exists(values);
    let p = first_minimum(values);
    assert forall|k: int| 0 <= k < runs.len() implies candidate_completion(
        inst,
        stage,
        job,
        ready,
        runs[p],
    ) <= candidate_completion(inst, stage, job, ready, #[trigger] runs[k]) by {
        assert(values[p] <= values[k]);
    }
    assert forall|k: int| 0 <= k < p implies candidate_completion(
        inst,
        stage,
        job,
        ready,
        #[trigger] runs[k],
    ) > candidate_completion(inst, stage, job, ready, runs[p]) by {
        assert(values[k] > values[p]);
    }
    assert(is_chosen_machine(inst, stage, job, ready, runs, p));
}

/// The stage after `job`, ready at `ready`, has been dispatched. A job
/// without processing time at the stage passes through: it completes when it
/// was ready and occupies no machine.
pub open spec fn dispatch(
    inst: InstanceView,
    stage: int,
    st: StageState,
    job: u32,
    ready: u32,
) -> StageState {
    if inst.processing(job as int, stage) == 0 {
        StageState { runs: st.runs, done: st.done.push((job, ready)) }
    } else {
        let m = chosen_machine(inst, stage, job, ready, st.runs);
        let t = candidate_completion(inst, stage, job, ready, st.runs[m]) as u32;
        StageState {
            runs: st.runs.update(m, st.runs[m].push((job, t))),
            done: st.done.push((job, t)),
        }
    }
}

/// A stage of `machines` machines before any job was dispatched.
pub open spec fn idle_stage(machines: nat) -> StageState {
    StageState {
        runs: Seq::new(machines, |m: int| Seq::<(u32, u32)>::empty()),
        done: Seq::<(u32, u32)>::empty(),
    }
}

/// The stage after the first `k` entries of `queue` were dispatched in order.
pub open spec fn fifo_stage(
    inst: InstanceView,
    stage: int,
    queue: Seq<(u32, u32)>,
    k: nat,
) -> StageState
    decreases k,
{
    if k == 0 {
        idle_stage(inst.machines[stage] as nat)
    } else {
        dispatch(
            inst,
            stage,
            fifo_stage(inst, stage, queue, (k - 1) as nat),
            queue[k - 1].0,
            queue[k - 1].1,
        )
    }
}

/// Where an arrival at time `t` joins a queue ordered by time: behind every
/// entry that is not later than it.
pub open spec fn arrival_slot(queue: Seq<(u32, u32)>, t: u32) -> int
    decreases queue.len(),
{
    if queue.len() == 0 {
        0
    } else if queue.last().1 <= t {
        queue.len() as int
    } else {
        arrival_slot(queue.drop_last(), t)
    }
}

/// The completions of a stage in the order in which the next stage takes them
/// up: by ascending time, equal times in their given order.
pub open spec fn arrival_order(done: Seq<(u32, u32)>) -> Seq<(u32, u32)>
    decreases done.len(),
{
    if done.len() == 0 {
        done
    } else {
        let earlier = arrival_order(done.drop_last());
        earlier.insert(arrival_slot(earlier, done.last().1), done.last())
    }
}

/// Times never decrease along `queue`.
pub open spec fn ascending(queue: Seq<(u32, u32)>) -> bool {
    forall|i: int, j: int| 0 <= i <= j < queue.len() ==> queue[i].1 <= queue[j].1
}

/// The slot lies in the queue, everything before it is not later than `t`,
/// and, in an ascending queue, everything from it on is later.
pub proof fn lemma_arrival_slot(queue: Seq<(u32, u32)>, t: u32)
    ensures
        0 <= arrival_slot(queue, t) <= queue.len(),
        ascending(queue) ==> forall|i: int|
            0 <= i < arrival_slot(queue, t) ==> (#[trigger] queue[i]).1 <= t,
        forall|i: int| arrival_slot(queue, t) <= i < queue.len() ==> (#[trigger] queue[i]).1 > t,
    decreases queue.len(),
{
    if queue.len() > 0 && queue.last().1 > t {
        lemma_arrival_slot(queue.drop_last(), t);
        if ascending(queue) {
            assert(ascending(queue.drop_last())) by {
                assert forall|i: int, j: int|
                    0 <= i <= j < queue.drop_last().len() implies queue.drop_last()[i].1
                    <= queue.drop_last()[j].1 by {
                    assert(queue[i].1 <= queue[j].1);
                }
            }
            assert forall|i: int| 0 <= i < arrival_slot(queue, t) implies (#[trigger] queue[i]).1
                <= t by {
                assert(queue.drop_last()[i].1 <= t);
            }
        }
        assert forall|i: int| arrival_slot(queue, t) <= i < queue.len() implies (
        #[trigger] queue[i]).1 > t by {
            if i < queue.len() - 1 {
                assert(queue.drop_last()[i].1 > t);
            }
        }
    }
}

/// The arrival order holds the same completions, each as often, and is
/// ascending.
pub proof fn lemma_arrival_order(done: Seq<(u32, u32)>)
    ensures
        arrival_order(done).len() == done.len(),
        arrival_order(done).to_multiset() == done.to_multiset(),
        ascending(arrival_order(done)),
    decreases done.len(),
{
    broadcast use vstd::seq_lib::to_multiset_insert, vstd::seq_lib::to_multiset_build;

    if done.len() > 0 {
        let rest = done.drop_last();
        let x = done.last();
        lemma_arrival_order(rest);
        let earlier = arrival_order(rest);
        let slot = arrival_slot(earlier, x.1);
        lemma_arrival_slot(earlier, x.1);
        let out = earlier.insert(slot, x);
        assert(done == rest.push(x));
        assert(out.to_multiset() == done.to_multiset());
        assert forall|i: int, j: int| 0 <= i <= j < out.len() implies out[i].1 <= out[j].1 by {
            if i < slot {
                assert(out[i] == earlier[i]);
                if j < slot {
                    assert(out[j] == earlier[j]);
                } else if j > slot {
                    assert(out[j] == earlier[j - 1]);
                }
            } else if i == slot {
                if j > slot {
                    assert(out[j] == earlier[j - 1]);
                }
            } else {
                assert(out[i] == earlier[i - 1]);
                assert(out[j] == earlier[j - 1]);
            }
        }
    }
}

/// The queue of the first stage: the jobs in the given order, all ready at
/// time 0.
pub open spec fn initial_queue(order: Seq<u32>) -> Seq<(u32, u32)> {
    Seq::new(order.len(), |i: int| (order[i], 0u32))
}

/// The queue in which `stage` takes up the jobs of `order`.
pub open spec fn stage_queue(inst: InstanceView, order: Seq<u32>, stage: nat) -> Seq<(u32, u32)>
    decreases stage, 0nat,
{
    if stage == 0 {
        initial_queue(order)
    } else {
        arrival_order(stage_outcome(inst, order, (stage - 1) as nat).done)
    }
}

/// What happens at `stage` when the jobs are released in `order`: the first
/// stage takes the jobs in that order, every later stage in the order in
/// which they arrive from the stage before.
pub open spec fn stage_outcome(inst: InstanceView, order: Seq<u32>, stage: nat) -> StageState
    decreases stage, 1nat,
{
    let queue = stage_queue(inst, order, stage);
    fifo_stage(inst, stage as int, queue, queue.len())
}

/// The run lists of all machines of all stages.
pub open spec fn schedule_of(inst: InstanceView, order: Seq<u32>) -> Seq<Seq<Seq<(u32, u32)>>> {
    Seq::new(inst.stages, |s: int| stage_outcome(inst, order, s as nat).runs)
}

/// The latest completion time in `done`, 0 if there is none.
pub open spec fn latest(done: Seq<(u32, u32)>) -> int
    decreases done.len(),
{
    if done.len() == 0 {
        0
    } else {
        later_of(latest(done.drop_last()), done.last().1 as int)
    }
}

/// `latest` is an upper bound of the times in `done` and is one of them.
pub proof fn lemma_latest(done: Seq<(u32, u32)>)
    ensures
        forall|i: int| 0 <= i < done.len() ==> (#[trigger] done[i]).1 <= latest(done),
        done.len() > 0 ==> exists|i: int| 0 <= i < done.len() && (#[trigger] done[i]).1 == latest(
            done,
        ),
        done.len() == 0 ==> latest(done) == 0,
    decreases done.len(),
{
    if done.len() > 0 {
        let rest = done.drop_last();
        lemma_latest(rest);
        assert forall|i: int| 0 <= i < done.len() implies (#[trigger] done[i]).1 <= latest(
            done,
        ) by {
            if i < rest.len() {
                assert(rest[i].1 <= latest(rest));
            }
        }
        if latest(done) == done.last().1 {
            assert(done[done.len() - 1].1 == latest(done));
        } else {
            let i = choose|i: int| 0 <= i < rest.len() && (#[trigger] rest[i]).1 == latest(rest);
            assert(done[i].1 == latest(done));
        }
    }
}

/// The makespan of `order`: the latest completion at the last stage.
pub open spec fn makespan_of(inst: InstanceView, order: Seq<u32>) -> int {
    latest(stage_outcome(inst, order, (inst.stages - 1) as nat).done)
}

/// A job order that the engine accepts: at least one and at most `jobs`
/// entries, each a job of the instance.
pub open spec fn valid_order(order: Seq<u32>, jobs: nat) -> bool {
    &&& 1 <= order.len() <= jobs
    &&& forall|i: int| 0 <= i < order.len() ==> #[trigger] order[i] < jobs
}


/// The time at which the waiting job `w`, given as (job, ready time), would
/// complete at the stage if it were dispatched next.
pub open spec fn earliest_finish(
    inst: InstanceView,
    stage: int,
    w: (u32, u32),
    runs: Seq<Seq<(u32, u32)>>,
) -> int {
    if inst.processing(w.0 as int, stage) == 0 {
        w.1 as int
    } else {
        candidate_completion(
            inst,
            stage,
            w.0,
            w.1,
            runs[chosen_machine(inst, stage, w.0, w.1, runs)],
        )
    }
}

/// For each waiting job the time at which it would complete if dispatched
/// next.
pub open spec fn finishes(
    inst: InstanceView,
    stage: int,
    waiting: Seq<(u32, u32)>,
    runs: Seq<Seq<(u32, u32)>>,
) -> Seq<int> {
    Seq::new(waiting.len(), |k: int| earliest_finish(inst, stage, waiting[k], runs))
}

/// The place in `waiting` of the job that would complete first; of several
/// such jobs the one that waits first.
pub open spec fn next_pick(
    inst: InstanceView,
    stage: int,
    waiting: Seq<(u32, u32)>,
    runs: Seq<Seq<(u32, u32)>>,
) -> int {
    first_minimum(finishes(inst, stage, waiting, runs))
}

/// One step of the earliest-completion regime: the job that would complete
/// first is dispatched and leaves the waiting jobs.
pub open spec fn greedy_step(
    inst: InstanceView,
    stage: int,
    st: StageState,
    waiting: Seq<(u32, u32)>,
) -> (StageState, Seq<(u32, u32)>) {
    let p = next_pick(inst, stage, waiting, st.runs);
    (dispatch(inst, stage, st, waiting[p].0, waiting[p].1), waiting.remove(p))
}

/// The stage and the jobs still waiting after `k` steps of the
/// earliest-completion regime on `queue`.
pub open spec fn greedy_stage(
    inst: InstanceView,
    stage: int,
    queue: Seq<(u32, u32)>,
    k: nat,
) -> (StageState, Seq<(u32, u32)>)
    decreases k,
{
    if k == 0 {
        (idle_stage(inst.machines[stage] as nat), queue)
    } else {
        let before = greedy_stage(inst, stage, queue, (k - 1) as nat);
        greedy_step(inst, stage, before.0, before.1)
    }
}

/// The jobs of an instance in their numbering.
pub open spec fn numbering(jobs: nat) -> Seq<u32> {
    Seq::new(jobs, |j: int| j as u32)
}

/// What happens at `stage` when every stage works in the earliest-completion
/// regime, the first on the jobs in their numbering, every later one on the
/// completions of the stage before.
pub open spec fn greedy_outcome(inst: InstanceView, stage: nat) -> StageState
    decreases stage,
{
    let queue = if stage == 0 {
        initial_queue(numbering(inst.jobs))
    } else {
        greedy_outcome(inst, (stage - 1) as nat).done
    };
    greedy_stage(inst, stage as int, queue, queue.len()).0
}

/// The run lists of all machines of all stages in the earliest-completion
/// regime.
pub open spec fn greedy_schedule(inst: InstanceView) -> Seq<Seq<Seq<(u32, u32)>>> {
    Seq::new(inst.stages, |s: int| greedy_outcome(inst, s as nat).runs)
}

/// The makespan in the earliest-completion regime.
pub open spec fn greedy_makespan(inst: InstanceView) -> int {
    latest(greedy_outcome(inst, (inst.stages - 1) as nat).done)
}

/// For each place of the arrival order the place that its entry had in
/// `done`.
pub open spec fn arrival_sources(done: Seq<(u32, u32)>) -> Seq<int>
    decreases done.len(),
{
    if done.len() == 0 {
        Seq::<int>::empty()
    } else {
        let earlier = arrival_order(done.drop_last());
        arrival_sources(done.drop_last()).insert(
            arrival_slot(earlier, done.last().1),
            done.len() - 1,
        )
    }
}

/// Of the entries of `done` at the places `x` and `y` the first arrives
/// first: it has the earlier time, or the same time and the earlier place.
pub open spec fn arrives_first(done: Seq<(u32, u32)>, x: int, y: int) -> bool {
    done[x].1 < done[y].1 || (done[x].1 == done[y].1 && x < y)
}

/// The arrival order is `done` sorted by time, entries of equal time in the
/// order in which `done` holds them: every entry of `done` occurs once, and
/// of two entries the one with the earlier time stands first, or, at equal
/// times, the one that stood first in `done`.
pub proof fn lemma_arrival_order_stable(done: Seq<(u32, u32)>)
    ensures
        arrival_sources(done).len() == done.len(),
        arrival_order(done).len() == done.len(),
        arrival_sources(done).no_duplicates(),
        forall|k: int|
            0 <= k < done.len() ==> 0 <= #[trigger] arrival_sources(done)[k] < done.len()
                && arrival_order(done)[k] == done[arrival_sources(done)[k]],
        forall|a: int, b: int|
            0 <= a < b < done.len() ==> arrives_first(
                done,
                #[trigger] arrival_sources(done)[a],
                #[trigger] arrival_sources(done)[b],
            ),
    decreases done.len(),
{
    if done.len() > 0 {
        let rest = done.drop_last();
        let last = done.len() - 1;
        lemma_arrival_order_stable(rest);
        lemma_arrival_order(rest);
        let earlier = arrival_order(rest);
        let from = arrival_sources(rest);
        let slot = arrival_slot(earlier, done.last().1);
        lemma_arrival_slot(earlier, done.last().1);
        let out = arrival_order(done);
        let src = arrival_sources(done);
        assert forall|k: int| 0 <= k < done.len() implies 0 <= #[trigger] src[k] < done.len()
            && out[k] == done[src[k]] by {
            if k < slot {
                assert(src[k] == from[k]);
                assert(0 <= from[k] < rest.len());
                assert(out[k] == earlier[k]);
            } else if k > slot {
                assert(src[k] == from[k - 1]);
                assert(0 <= from[k - 1] < rest.len());
                assert(out[k] == earlier[k - 1]);
            }
        }
        assert forall|a: int, b: int| 0 <= a < src.len() && 0 <= b < src.len() && a != b implies src[a]
            != src[b] by {
            let a0 = if a < slot {
                a
            } else {
                a - 1
            };
            let b0 = if b < slot {
                b
            } else {
                b - 1
            };
            if a != slot && b != slot {
                assert(src[a] == from[a0] && src[b] == from[b0]);
            } else if a == slot {
                assert(src[b] == from[b0]);
                assert(0 <= from[b0] < rest.len());
            } else {
                assert(src[a] == from[a0]);
                assert(0 <= from[a0] < rest.len());
            }
        }
        assert forall|a: int, b: int| 0 <= a < b < done.len() implies arrives_first(
            done,
            #[trigger] src[a],
            #[trigger] src[b],
        ) by {
            let a0 = if a < slot {
                a
            } else {
                a - 1
            };
            let b0 = if b < slot {
                b
            } else {
                b - 1
            };
            if a != slot && b != slot {
                assert(src[a] == from[a0] && src[b] == from[b0]);
                assert(0 <= from[a0] < rest.len() && 0 <= from[b0] < rest.len());
                assert(rest[from[a0]] == done[from[a0]]);
                assert(rest[from[b0]] == done[from[b0]]);
            } else if a == slot {
                assert(src[b] == from[b0]);
                assert(0 <= from[b0] < rest.len());
                assert(earlier[b0] == rest[from[b0]]);
                assert(earlier[b0].1 > done.last().1);
            } else {
                assert(src[a] == from[a0]);
                assert(0 <= from[a0] < rest.len());
                assert(earlier[a0] == rest[from[a0]]);
                assert(earlier[a0].1 <= done.last().1);
            }
        }
    }
}

/// What happens at `stage` in the earliest-completion regime of the
/// engine: the first stage takes the jobs in the given order; at every later
/// stage the job that can complete first goes next.
pub open spec fn earliest_outcome(inst: InstanceView, order: Seq<u32>, stage: nat) -> StageState
    decreases stage,
{
    if stage == 0 {
        fifo_stage(inst, 0, initial_queue(order), order.len())
    } else {
        let queue = earliest_outcome(inst, order, (stage - 1) as nat).done;
        greedy_stage(inst, stage as int, queue, queue.len()).0
    }
}

/// The run lists of all machines of all stages in the earliest-completion
/// regime of the engine.
pub open spec fn earliest_schedule(inst: InstanceView, order: Seq<u32>) -> Seq<
    Seq<Seq<(u32, u32)>>,
> {
    Seq::new(inst.stages, |s: int| earliest_outcome(inst, order, s as nat).runs)
}

/// The makespan of `order` in the earliest-completion regime of the engine.
pub open spec fn earliest_makespan(inst: InstanceView, order: Seq<u32>) -> int {
    latest(earliest_outcome(inst, order, (inst.stages - 1) as nat).done)
}

} // verus!
