//! Why no time of a schedule runs past the largest number: every dispatch
//! adds at most the step bound of the instance to the latest time so far.

use crate::instance::InstanceView;
use crate::minimum::{is_first_minimum, lemma_first_minimum_exists};
use crate::schedule::{
    arrival_order, candidate_completion, chosen_machine, dispatch, finishes, greedy_step,
    lemma_arrival_order, lemma_chosen_machine_exists, machine_last, next_pick, StageState,
};
use vstd::prelude::*;

verus! {

/// Every job named in `run` is a job of the instance.
pub open spec fn jobs_known(run: Seq<(u32, u32)>, jobs: nat) -> bool {
    forall|i: int| 0 <= i < run.len() ==> (#[trigger] run[i]).0 < jobs
}

/// Every job named in the run lists is a job of the instance.
pub open spec fn runs_known(runs: Seq<Seq<(u32, u32)>>, jobs: nat) -> bool {
    forall|m: int| 0 <= m < runs.len() ==> jobs_known(#[trigger] runs[m], jobs)
}

/// No time in `run` is later than `limit`.
pub open spec fn times_within(run: Seq<(u32, u32)>, limit: int) -> bool {
    forall|i: int| 0 <= i < run.len() ==> (#[trigger] run[i]).1 <= limit
}

/// No time in the run lists is later than `limit`.
pub open spec fn runs_within(runs: Seq<Seq<(u32, u32)>>, limit: int) -> bool {
    forall|m: int| 0 <= m < runs.len() ==> times_within(#[trigger] runs[m], limit)
}

impl StageState {
    /// The state names known jobs only and holds no time later than `limit`.
    pub open spec fn sound(self, jobs: nat, limit: int) -> bool {
        &&& runs_known(self.runs, jobs)
        &&& jobs_known(self.done, jobs)
        &&& runs_within(self.runs, limit)
        &&& times_within(self.done, limit)
    }
}

/// One operation on a machine whose times and the job's ready time are within
/// `limit` completes within `limit` plus the step bound.
pub proof fn lemma_candidate_within(
    inst: InstanceView,
    stage: int,
    job: u32,
    ready: u32,
    run: Seq<(u32, u32)>,
    limit: int,
)
    requires
        inst.well_shaped(),
        inst.bounded(),
        0 <= stage < inst.stages,
        job < inst.jobs,
        jobs_known(run, inst.jobs),
        times_within(run, limit),
        0 <= ready <= limit,
    ensures
        ready <= candidate_completion(inst, stage, job, ready, run) <= limit + inst.step_bound(),
        inst.step_bound() >= 0,
{
    let last = machine_last(run, job);
    if run.len() > 0 {
        assert(run[run.len() - 1].0 < inst.jobs);
        assert(run[run.len() - 1].1 <= limit);
    }
    let work = inst.processing(job as int, stage);
    assert(inst.jobs * inst.stages > 0) by (nonlinear_arith)
        requires
            inst.jobs >= 1,
            inst.stages >= 1,
    ;
    if work != 0 {
        assert(work + inst.setup(stage, last.0 as int, job as int) <= inst.step_bound());
    }
}

/// Dispatching a job keeps a stage sound, with the limit raised by the step
/// bound.
pub proof fn lemma_dispatch_sound(
    inst: InstanceView,
    stage: int,
    st: StageState,
    job: u32,
    ready: u32,
    limit: int,
)
    requires
        inst.well_shaped(),
        inst.bounded(),
        0 <= stage < inst.stages,
        job < inst.jobs,
        st.runs.len() >= 1,
        st.sound(inst.jobs, limit),
        0 <= ready <= limit,
        limit + inst.step_bound() <= u32::MAX,
    ensures
        dispatch(inst, stage, st, job, ready).sound(inst.jobs, limit + inst.step_bound()),
        dispatch(inst, stage, st, job, ready).runs.len() == st.runs.len(),
        dispatch(inst, stage, st, job, ready).done.len() == st.done.len() + 1,
        dispatch(inst, stage, st, job, ready).done.last().0 == job,
        dispatch(inst, stage, st, job, ready).done.last().1 >= ready,
        forall|m: int|
            0 <= m < st.runs.len() ==> candidate_completion(
                inst,
                stage,
                job,
                ready,
                #[trigger] st.runs[m],
            ) <= limit + inst.step_bound(),
{
    let after = dispatch(inst, stage, st, job, ready);
    let top = limit + inst.step_bound();
    assert forall|m: int| 0 <= m < st.runs.len() implies candidate_completion(
        inst,
        stage,
        job,
        ready,
        #[trigger] st.runs[m],
    ) <= top by {
        lemma_candidate_within(inst, stage, job, ready, st.runs[m], limit);
    }
    lemma_candidate_within(inst, stage, job, ready, st.runs[0], limit);
    if inst.processing(job as int, stage) != 0 {
        lemma_chosen_machine_exists(inst, stage, job, ready, st.runs);
        let c = chosen_machine(inst, stage, job, ready, st.runs);
        lemma_candidate_within(inst, stage, job, ready, st.runs[c], limit);
        let t = candidate_completion(inst, stage, job, ready, st.runs[c]) as u32;
        assert forall|m: int| 0 <= m < after.runs.len() implies jobs_known(
            #[trigger] after.runs[m],
            inst.jobs,
        ) && times_within(after.runs[m], top) by {
            assert(jobs_known(st.runs[m], inst.jobs));
            assert(times_within(st.runs[m], limit));
            if m == c {
                assert forall|i: int| 0 <= i < after.runs[m].len() implies (
                #[trigger] after.runs[m][i]).0 < inst.jobs && after.runs[m][i].1 <= top by {
                    if i < st.runs[m].len() {
                        assert(after.runs[m][i] == st.runs[m][i]);
                    }
                }
            }
        }
    } else {
        assert forall|m: int| 0 <= m < after.runs.len() implies times_within(
            #[trigger] after.runs[m],
            top,
        ) by {
            assert(times_within(st.runs[m], limit));
        }
    }
    assert forall|i: int| 0 <= i < after.done.len() implies (#[trigger] after.done[i]).0
        < inst.jobs && after.done[i].1 <= top by {
        if i < st.done.len() {
            assert(after.done[i] == st.done[i]);
        }
    }
}

/// The arrival order keeps what holds of every completion.
pub proof fn lemma_arrival_order_keeps(done: Seq<(u32, u32)>, jobs: nat, limit: int)
    requires
        jobs_known(done, jobs),
        times_within(done, limit),
    ensures
        jobs_known(arrival_order(done), jobs),
        times_within(arrival_order(done), limit),
        arrival_order(done).len() == done.len(),
{
    broadcast use vstd::seq_lib::to_multiset_contains;

    lemma_arrival_order(done);
    let out = arrival_order(done);
    assert forall|i: int| 0 <= i < out.len() implies (#[trigger] out[i]).0 < jobs && out[i].1
        <= limit by {
        assert(out.contains(out[i]));
        assert(done.to_multiset().count(out[i]) > 0);
        assert(done.contains(out[i]));
        let k = choose|k: int| 0 <= k < done.len() && done[k] == out[i];
        assert(done[k].0 < jobs);
    }
}

/// The latest time that can have been reached when `i` of `n` jobs have been
/// dispatched at `stage`.
pub open spec fn horizon(inst: InstanceView, n: int, stage: int, i: int) -> int {
    (stage * n + i) * inst.step_bound()
}

/// The horizon grows by the step bound with every dispatch and stays within
/// `u32::MAX`.
pub proof fn lemma_horizon(inst: InstanceView, n: int, stage: int, i: int)
    requires
        inst.jobs >= 1,
        inst.stages >= 1,
        0 <= stage < inst.stages,
        0 <= i <= n <= inst.jobs,
    ensures
        inst.step_bound() >= 0,
        0 <= horizon(inst, n, stage, 0) <= horizon(inst, n, stage, i) <= u32::MAX,
        i < n ==> horizon(inst, n, stage, i) + inst.step_bound() == horizon(inst, n, stage, i + 1),
        horizon(inst, n, stage, n) == horizon(inst, n, stage + 1, 0),
        horizon(inst, n, 0, 0) == 0,
{
    let b = inst.step_bound();
    let all = (inst.jobs * inst.stages) as int;
    let jobs = inst.jobs as int;
    let stages = inst.stages as int;
    assert(all >= 1) by (nonlinear_arith)
        requires
            all == jobs * stages,
            jobs >= 1,
            stages >= 1,
    ;
    vstd::arithmetic::div_mod::lemma_fundamental_div_mod(u32::MAX as int, all);
    vstd::arithmetic::div_mod::lemma_div_pos_is_pos(u32::MAX as int, all);
    assert(0 <= (u32::MAX as int) % all) by (nonlinear_arith)
        requires
            all >= 1,
    ;
    assert(all * b <= u32::MAX);
    assert(stage * n + i <= all) by (nonlinear_arith)
        requires
            0 <= stage < stages,
            0 <= i <= n <= jobs,
            all == jobs * stages,
    ;
    assert(stage * n >= 0) by (nonlinear_arith)
        requires
            0 <= stage,
            0 <= n,
    ;
    assert((stage * n + i) * b <= all * b) by (nonlinear_arith)
        requires
            stage * n + i <= all,
            b >= 0,
    ;
    assert((stage * n + 0) * b <= (stage * n + i) * b) by (nonlinear_arith)
        requires
            0 <= i,
            b >= 0,
    ;
    assert(0 <= (stage * n + 0) * b) by (nonlinear_arith)
        requires
            stage * n >= 0,
            b >= 0,
    ;
    assert((stage * n + i) * b + b == (stage * n + (i + 1)) * b) by (nonlinear_arith);
    assert((stage * n + n) * b == ((stage + 1) * n + 0) * b) by (nonlinear_arith);
    assert((0 * n + 0) * b == 0) by (nonlinear_arith);
}

/// A step of the earliest-completion regime keeps the stage sound, with the
/// limit raised by the step bound, and takes one job from those waiting.
pub proof fn lemma_greedy_step_sound(
    inst: InstanceView,
    stage: int,
    st: StageState,
    waiting: Seq<(u32, u32)>,
    limit: int,
    ready_limit: int,
)
    requires
        inst.well_shaped(),
        inst.bounded(),
        0 <= stage < inst.stages,
        st.runs.len() >= 1,
        st.sound(inst.jobs, limit),
        waiting.len() >= 1,
        jobs_known(waiting, inst.jobs),
        times_within(waiting, ready_limit),
        0 <= ready_limit <= limit,
        limit + inst.step_bound() <= u32::MAX,
    ensures
        is_first_minimum(
            finishes(inst, stage, waiting, st.runs),
            next_pick(inst, stage, waiting, st.runs),
        ),
        greedy_step(inst, stage, st, waiting).0.sound(inst.jobs, limit + inst.step_bound()),
        greedy_step(inst, stage, st, waiting).0.runs.len() == st.runs.len(),
        greedy_step(inst, stage, st, waiting).0.done.len() == st.done.len() + 1,
        greedy_step(inst, stage, st, waiting).1.len() == waiting.len() - 1,
        jobs_known(greedy_step(inst, stage, st, waiting).1, inst.jobs),
        times_within(greedy_step(inst, stage, st, waiting).1, ready_limit),
        forall|k: int, m: int|
            0 <= k < waiting.len() && 0 <= m < st.runs.len() ==> candidate_completion(
                inst,
                stage,
                (#[trigger] waiting[k]).0,
                waiting[k].1,
                #[trigger] st.runs[m],
            ) <= limit + inst.step_bound(),
{
    let values = finishes(inst, stage, waiting, st.runs);
    lemma_first_minimum_exists(values);
    let p = next_pick(inst, stage, waiting, st.runs);
    assert(waiting[p].0 < inst.jobs);
    assert(waiting[p].1 <= ready_limit);
    lemma_dispatch_sound(inst, stage, st, waiting[p].0, waiting[p].1, limit);
    let rest = waiting.remove(p);
    assert forall|i: int| 0 <= i < rest.len() implies (#[trigger] rest[i]).0 < inst.jobs
        && rest[i].1 <= ready_limit by {
        if i < p {
            assert(rest[i] == waiting[i]);
        } else {
            assert(rest[i] == waiting[i + 1]);
        }
    }
    assert forall|k: int, m: int|
        0 <= k < waiting.len() && 0 <= m < st.runs.len() implies candidate_completion(
        inst,
        stage,
        (#[trigger] waiting[k]).0,
        waiting[k].1,
        #[trigger] st.runs[m],
    ) <= limit + inst.step_bound() by {
        assert(jobs_known(st.runs[m], inst.jobs));
        assert(times_within(st.runs[m], limit));
        lemma_candidate_within(inst, stage, waiting[k].0, waiting[k].1, st.runs[m], limit);
    }
}

} // verus!
