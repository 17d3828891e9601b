//! The makespan engine: it simulates a job order on an instance and counts
//! how often it was asked to.

use crate::horizon::{
    horizon, jobs_known, lemma_arrival_order_keeps, lemma_dispatch_sound, lemma_greedy_step_sound,
    lemma_horizon, runs_known, times_within,
};
use crate::instance::Instance;
use crate::minimum::{is_first_minimum, lemma_first_minimum_is};
use crate::schedule::{
    arrival_order, arrival_slot, candidate_completion, chosen_machine, dispatch, earliest_finish,
    earliest_makespan, earliest_outcome, earliest_schedule, fifo_stage, finishes, greedy_stage,
    greedy_step, idle_stage, initial_queue, is_chosen_machine, latest,
    lemma_chosen_machine_exists, lemma_chosen_machine_is, makespan_of, next_pick, schedule_of,
    stage_outcome, stage_queue, valid_order, StageState,
};
use vstd::prelude::*;

verus! {

/// The run lists of one stage as the engine holds them.
pub open spec fn runs_of(stage: Vec<Vec<(u32, u32)>>) -> Seq<Seq<(u32, u32)>> {
    stage@.map_values(|run: Vec<(u32, u32)>| run@)
}

/// The run lists of all stages as the engine holds them.
pub open spec fn schedule_view(stages: Vec<Vec<Vec<(u32, u32)>>>) -> Seq<Seq<Seq<(u32, u32)>>> {
    stages@.map_values(|stage: Vec<Vec<(u32, u32)>>| runs_of(stage))
}

/// The state of one stage as the engine holds it.
pub open spec fn stage_state(done: Vec<(u32, u32)>, runs: Vec<Vec<(u32, u32)>>) -> StageState {
    StageState { runs: runs_of(runs), done: done@ }
}

/// The later of two times.
pub fn later(a: u32, b: u32) -> (r: u32)
    ensures
        r == crate::schedule::later_of(a as int, b as int),
{
    if a >= b {
        a
    } else {
        b
    }
}

/// Copies a list of completions.
pub fn copy_pairs(list: &Vec<(u32, u32)>) -> (r: Vec<(u32, u32)>)
    ensures
        r@ == list@,
{
    let mut r: Vec<(u32, u32)> = Vec::with_capacity(list.len());
    let mut i: usize = 0;
    while i < list.len()
        invariant
            i <= list.len(),
            r@ == list@.take(i as int),
        decreases list.len() - i,
    {
        r.push(list[i]);
        i += 1;
    }
    r
}

/// Orders the completions of a stage by ascending time, equal times in their
/// given order.
pub fn arrival_sorted(done: &Vec<(u32, u32)>) -> (r: Vec<(u32, u32)>)
    ensures
        r@ == arrival_order(done@),
{
    let mut out: Vec<(u32, u32)> = Vec::with_capacity(done.len());
    let mut i: usize = 0;
    while i < done.len()
        invariant
            i <= done.len(),
            out@ == arrival_order(done@.take(i as int)),
        decreases done.len() - i,
    {
        let x = done[i];
        let mut p: usize = out.len();
        assert(out@.take(p as int) == out@);
        while p > 0 && out[p - 1].1 > x.1
            invariant
                p <= out.len(),
                arrival_slot(out@, x.1) == arrival_slot(out@.take(p as int), x.1),
            decreases p,
        {
            assert(out@.take(p as int).drop_last() == out@.take(p - 1));
            p -= 1;
        }
        assert(arrival_slot(out@, x.1) == p) by {
            if p > 0 {
                assert(out@.take(p as int).last() == out@[p - 1]);
            }
        }
        proof {
            assert(done@.take(i + 1).drop_last() == done@.take(i as int));
            assert(done@.take(i + 1).last() == x);
        }
        out.insert(p, x);
        i += 1;
    }
    assert(done@.take(done.len() as int) == done@);
    out
}

/// The latest completion time in `done`, 0 if there is none.
pub fn latest_time(done: &Vec<(u32, u32)>) -> (r: u32)
    ensures
        r == latest(done@),
{
    let mut r: u32 = 0;
    let mut i: usize = 0;
    while i < done.len()
        invariant
            i <= done.len(),
            r == latest(done@.take(i as int)),
        decreases done.len() - i,
    {
        assert(done@.take(i + 1).drop_last() == done@.take(i as int));
        r = later(r, done[i].1);
        i += 1;
    }
    assert(done@.take(done.len() as int) == done@);
    r
}

/// What the evaluation counter shows after `k` more simulations. It stops
/// at `u32::MAX`.
pub open spec fn add_count(count: u32, k: nat) -> u32 {
    if count + k <= u32::MAX {
        (count + k) as u32
    } else {
        u32::MAX
    }
}

/// The number of simulations that it takes to build a schedule of `n` jobs
/// job by job, when each job is tried at every place: 1 + 2 + ... + `n`.
pub open spec fn tries(n: nat) -> nat
    decreases n,
{
    if n == 0 {
        0
    } else {
        tries((n - 1) as nat) + n
    }
}

/// The sum 1 + 2 + ... + `n` is half of `n` times `n + 1`.
pub proof fn lemma_tries(n: nat)
    ensures
        tries(n) == n * (n + 1) / 2,
    decreases n,
{
    if n > 0 {
        lemma_tries((n - 1) as nat);
        assert((n - 1) * n / 2 + n == n * (n + 1) / 2) by (nonlinear_arith)
            requires
                n >= 1,
        ;
    } else {
        assert(0 * (0 + 1) / 2 == 0) by (nonlinear_arith);
    }
}

/// Determinism: a simulation changes nothing of what the next one
/// returns. An engine that has run a simulation gives for every job order
/// the makespan and the schedule that it would have given before.
pub proof fn lemma_evaluation_repeats(before: Makespan, after: Makespan, order: Seq<u32>)
    requires
        after.instance == before.instance,
        after.count == add_count(before.count, 1),
    ensures
        makespan_of(after.instance@, order) == makespan_of(before.instance@, order),
        schedule_of(after.instance@, order) == schedule_of(before.instance@, order),
{
}

/// The dispatching regimes of the engine.
#[derive(Clone, Copy, Debug, PartialEq, Eq, Structural)]
pub enum Regime {
    /// Every stage takes the jobs in the order in which they arrive.
    Fifo,
    /// Behind the first stage the job that can complete first goes next.
    EarliestCompletion,
}

/// The makespan engine of one instance, with the number of simulations run.
pub struct Makespan {
    pub count: u32,
    pub instance: Instance,
}

impl Makespan {
    /// An engine for a copy of `instance` that has not simulated yet.
    pub fn new(instance: &Instance) -> (r: Makespan)
        ensures
            r.count == 0,
            r.instance@ == instance@,
    {
        Makespan { count: 0, instance: instance.clone() }
    }

    /// Simulates `initial_job_order` and returns its makespan and the run
    /// list of every machine of every stage. The first stage takes the jobs
    /// in the given order, every later stage in the order in which they
    /// arrive. Counts one simulation.
    pub fn makespan(&mut self, initial_job_order: &Vec<u32>) -> (r: (
        u32,
        Vec<Vec<Vec<(u32, u32)>>>,
    ))
        requires
            old(self).instance@.well_formed(),
            valid_order(initial_job_order@, old(self).instance@.jobs),
        ensures
            r.0 == makespan_of(old(self).instance@, initial_job_order@),
            schedule_view(r.1) == schedule_of(old(self).instance@, initial_job_order@),
            final(self).instance == old(self).instance,
            final(self).count == add_count(old(self).count, 1),
    {
        let ghost inst = self.instance@;
        let ghost order = initial_job_order@;
        let ghost n = order.len() as int;
        let stages: u32 = self.instance.stages;
        let (mut job_completions, mut machine_completions) = Self::idle_stages(
            &self.instance,
            initial_job_order.len(),
        );
        let mut prev_stage_completions: Vec<(u32, u32)> = Self::release(initial_job_order);
        proof {
            lemma_horizon(inst, n, 0, 0);
        }
        let mut stage: u32 = 0;
        while stage < stages
            invariant
                inst == self.instance@,
                *self == *old(self),
                inst.well_formed(),
                order == initial_job_order@,
                valid_order(order, inst.jobs),
                n == order.len(),
                stages == inst.stages,
                stage <= stages,
                job_completions.len() == stages,
                machine_completions.len() == stages,
                forall|k: int|
                    0 <= k < stage ==> stage_state(
                        #[trigger] job_completions@[k],
                        machine_completions@[k],
                    ) == stage_outcome(inst, order, k as nat),
                forall|k: int|
                    stage <= k < stages ==> stage_state(
                        #[trigger] job_completions@[k],
                        machine_completions@[k],
                    ) == idle_stage(inst.machines[k] as nat),
                prev_stage_completions@ == if stage == 0 {
                    initial_queue(order)
                } else {
                    stage_outcome(inst, order, (stage - 1) as nat).done
                },
                prev_stage_completions.len() == n,
                jobs_known(prev_stage_completions@, inst.jobs),
                stage < stages ==> times_within(
                    prev_stage_completions@,
                    horizon(inst, n, stage as int, 0),
                ),
            decreases stages - stage,
        {
            if stage != 0 {
                proof {
                    lemma_arrival_order_keeps(
                        prev_stage_completions@,
                        inst.jobs,
                        horizon(inst, n, stage as int, 0),
                    );
                }
                prev_stage_completions = arrival_sorted(&prev_stage_completions);
            }
            assert(prev_stage_completions@ == stage_queue(inst, order, stage as nat));
            Self::fifo_pass(
                &stage,
                &prev_stage_completions,
                &mut job_completions,
                &mut machine_completions,
                &self.instance,
            );
            prev_stage_completions = copy_pairs(&job_completions[stage as usize]);
            stage += 1;
        }
        self.count = if self.count < u32::MAX {
            self.count + 1
        } else {
            self.count
        };
        let makespan = latest_time(&job_completions[(stages - 1) as usize]);
        proof {
            assert(stage_state(
                job_completions@[stages - 1],
                machine_completions@[stages - 1],
            ) == stage_outcome(inst, order, (stages - 1) as nat));
            assert(schedule_view(machine_completions) =~= schedule_of(inst, order)) by {
                assert forall|k: int| 0 <= k < stages implies schedule_view(
                    machine_completions,
                )[k] == schedule_of(inst, order)[k] by {
                    assert(stage_state(job_completions@[k], machine_completions@[k])
                        == stage_outcome(inst, order, k as nat));
                }
            }
        }
        (makespan, machine_completions)
    }

    /// Simulates `initial_job_order` in the earliest-completion regime: the
    /// first stage takes the jobs in the given order; at every later stage
    /// the job that can complete first goes next. Returns the makespan and
    /// the run list of every machine of every stage. Counts one simulation.
    pub fn makespan_earliest(&mut self, initial_job_order: &Vec<u32>) -> (r: (
        u32,
        Vec<Vec<Vec<(u32, u32)>>>,
    ))
        requires
            old(self).instance@.well_formed(),
            valid_order(initial_job_order@, old(self).instance@.jobs),
        ensures
            r.0 == earliest_makespan(old(self).instance@, initial_job_order@),
            schedule_view(r.1) == earliest_schedule(old(self).instance@, initial_job_order@),
            final(self).instance == old(self).instance,
            final(self).count == add_count(old(self).count, 1),
    {
        let ghost inst = self.instance@;
        let ghost order = initial_job_order@;
        let ghost n = order.len() as int;
        let stages: u32 = self.instance.stages;
        let (mut job_completions, mut machine_completions) = Self::idle_stages(
            &self.instance,
            initial_job_order.len(),
        );
        let mut prev_stage_completions: Vec<(u32, u32)> = Self::release(initial_job_order);
        proof {
            lemma_horizon(inst, n, 0, 0);
        }
        let mut stage: u32 = 0;
        while stage < stages
            invariant
                inst == self.instance@,
                *self == *old(self),
                inst.well_formed(),
                order == initial_job_order@,
                valid_order(order, inst.jobs),
                n == order.len(),
                stages == inst.stages,
                stage <= stages,
                job_completions.len() == stages,
                machine_completions.len() == stages,
                forall|k: int|
                    0 <= k < stage ==> stage_state(
                        #[trigger] job_completions@[k],
                        machine_completions@[k],
                    ) == earliest_outcome(inst, order, k as nat),
                forall|k: int|
                    stage <= k < stages ==> stage_state(
                        #[trigger] job_completions@[k],
                        machine_completions@[k],
                    ) == idle_stage(inst.machines[k] as nat),
                prev_stage_completions@ == if stage == 0 {
                    initial_queue(order)
                } else {
                    earliest_outcome(inst, order, (stage - 1) as nat).done
                },
                prev_stage_completions.len() == n,
                jobs_known(prev_stage_completions@, inst.jobs),
                stage < stages ==> times_within(
                    prev_stage_completions@,
                    horizon(inst, n, stage as int, 0),
                ),
            decreases stages - stage,
        {
            if stage == 0 {
                Self::fifo_pass(
                    &stage,
                    &prev_stage_completions,
                    &mut job_completions,
                    &mut machine_completions,
                    &self.instance,
                );
            } else {
                Self::earliest_pass(
                    &stage,
                    prev_stage_completions,
                    &mut job_completions,
                    &mut machine_completions,
                    &self.instance,
                );
            }
            prev_stage_completions = copy_pairs(&job_completions[stage as usize]);
            stage += 1;
        }
        self.count = if self.count < u32::MAX {
            self.count + 1
        } else {
            self.count
        };
        let makespan = latest_time(&job_completions[(stages - 1) as usize]);
        proof {
            assert(stage_state(
                job_completions@[stages - 1],
                machine_completions@[stages - 1],
            ) == earliest_outcome(inst, order, (stages - 1) as nat));
            assert(schedule_view(machine_completions) =~= earliest_schedule(inst, order)) by {
                assert forall|k: int| 0 <= k < stages implies schedule_view(
                    machine_completions,
                )[k] == earliest_schedule(inst, order)[k] by {
                    assert(stage_state(job_completions@[k], machine_completions@[k])
                        == earliest_outcome(inst, order, k as nat));
                }
            }
        }
        (makespan, machine_completions)
    }

    /// Simulates `initial_job_order` in the given regime.
    pub fn makespan_with(&mut self, initial_job_order: &Vec<u32>, regime: Regime) -> (r: (
        u32,
        Vec<Vec<Vec<(u32, u32)>>>,
    ))
        requires
            old(self).instance@.well_formed(),
            valid_order(initial_job_order@, old(self).instance@.jobs),
        ensures
            regime is Fifo ==> r.0 == makespan_of(old(self).instance@, initial_job_order@)
                && schedule_view(r.1) == schedule_of(old(self).instance@, initial_job_order@),
            regime is EarliestCompletion ==> r.0 == earliest_makespan(
                old(self).instance@,
                initial_job_order@,
            ) && schedule_view(r.1) == earliest_schedule(old(self).instance@, initial_job_order@),
            final(self).instance == old(self).instance,
            final(self).count == add_count(old(self).count, 1),
    {
        match regime {
            Regime::Fifo => self.makespan(initial_job_order),
            Regime::EarliestCompletion => self.makespan_earliest(initial_job_order),
        }
    }

    /// The queue of the first stage: the jobs in the given order, all ready
    /// at time 0.
    pub fn release(initial_job_order: &Vec<u32>) -> (r: Vec<(u32, u32)>)
        ensures
            r@ == initial_queue(initial_job_order@),
    {
        let n_jobs: usize = initial_job_order.len();
        let mut queue: Vec<(u32, u32)> = Vec::with_capacity(n_jobs);
        let mut job: usize = 0;
        while job < n_jobs
            invariant
                job <= n_jobs,
                n_jobs == initial_job_order.len(),
                queue@ == initial_queue(initial_job_order@).take(job as int),
            decreases n_jobs - job,
        {
            queue.push((initial_job_order[job], 0));
            job += 1;
        }
        assert(queue@ == initial_queue(initial_job_order@));
        queue
    }

    /// Dispatches the jobs of `queue` at the idle stage `stage`, one after
    /// the other.
    pub fn fifo_pass(
        stage: &u32,
        queue: &Vec<(u32, u32)>,
        job_completions: &mut Vec<Vec<(u32, u32)>>,
        machine_completions: &mut Vec<Vec<Vec<(u32, u32)>>>,
        instance: &Instance,
    )
        requires
            instance@.well_formed(),
            *stage < instance@.stages,
            old(job_completions).len() == instance@.stages,
            old(machine_completions).len() == instance@.stages,
            stage_state(
                old(job_completions)@[*stage as int],
                old(machine_completions)@[*stage as int],
            ) == idle_stage(instance@.machines[*stage as int] as nat),
            1 <= queue.len() <= instance@.jobs,
            jobs_known(queue@, instance@.jobs),
            times_within(queue@, horizon(instance@, queue.len() as int, *stage as int, 0)),
        ensures
            final(job_completions).len() == old(job_completions).len(),
            final(machine_completions).len() == old(machine_completions).len(),
            forall|k: int|
                0 <= k < old(job_completions).len() && k != *stage ==> final(job_completions)[k]
                    == old(job_completions)[k],
            forall|k: int|
                0 <= k < old(machine_completions).len() && k != *stage ==> final(
                    machine_completions
                )[k] == old(machine_completions)[k],
            stage_state(
                final(job_completions)@[*stage as int],
                final(machine_completions)@[*stage as int],
            ) == fifo_stage(instance@, *stage as int, queue@, queue.len() as nat),
            final(job_completions)@[*stage as int].len() == queue.len(),
            jobs_known(final(job_completions)@[*stage as int]@, instance@.jobs),
            times_within(
                final(job_completions)@[*stage as int]@,
                horizon(instance@, queue.len() as int, *stage + 1, 0),
            ),
    {
        let ghost inst = instance@;
        let ghost n = queue.len() as int;
        let ghost q = queue@;
        let ghost s = *stage as int;
        proof {
            lemma_horizon(inst, n, s, 0);
        }
        let mut i: usize = 0;
        while i < queue.len()
            invariant
                inst == instance@,
                inst.well_formed(),
                s == *stage,
                s < inst.stages,
                q == queue@,
                q.len() == n,
                1 <= n <= inst.jobs,
                i <= n,
                jobs_known(q, inst.jobs),
                times_within(q, horizon(inst, n, s, 0)),
                job_completions.len() == old(job_completions).len(),
                machine_completions.len() == old(machine_completions).len(),
                job_completions.len() == inst.stages,
                machine_completions.len() == inst.stages,
                forall|k: int|
                    0 <= k < job_completions.len() && k != s ==> job_completions[k] == old(
                        job_completions,
                    )[k],
                forall|k: int|
                    0 <= k < machine_completions.len() && k != s ==> machine_completions[k]
                        == old(machine_completions)[k],
                stage_state(job_completions@[s], machine_completions@[s]) == fifo_stage(
                    inst,
                    s,
                    q,
                    i as nat,
                ),
                fifo_stage(inst, s, q, i as nat).sound(inst.jobs, horizon(inst, n, s, i as int)),
                fifo_stage(inst, s, q, i as nat).runs.len() == inst.machines[s],
                fifo_stage(inst, s, q, i as nat).done.len() == i,
            decreases n - i,
        {
            let (job, ready) = queue[i];
            proof {
                lemma_horizon(inst, n, s, i as int);
                lemma_horizon(inst, n, s, i + 1);
                assert(q[i as int].0 < inst.jobs);
                assert(q[i as int].1 <= horizon(inst, n, s, 0));
                assert(inst.machines[s] >= 1);
                lemma_dispatch_sound(
                    inst,
                    s,
                    fifo_stage(inst, s, q, i as nat),
                    job,
                    ready,
                    horizon(inst, n, s, i as int),
                );
            }
            Self::fifo(&job, stage, &ready, job_completions, machine_completions, instance);
            i += 1;
        }
        proof {
            lemma_horizon(inst, n, s, n);
        }
    }

    /// Dispatches the jobs of `queue` at the idle stage `stage` in the
    /// earliest-completion regime: the job that can complete first goes
    /// next.
    pub fn earliest_pass(
        stage: &u32,
        queue: Vec<(u32, u32)>,
        job_completions: &mut Vec<Vec<(u32, u32)>>,
        machine_completions: &mut Vec<Vec<Vec<(u32, u32)>>>,
        instance: &Instance,
    )
        requires
            instance@.well_formed(),
            *stage < instance@.stages,
            old(job_completions).len() == instance@.stages,
            old(machine_completions).len() == instance@.stages,
            stage_state(
                old(job_completions)@[*stage as int],
                old(machine_completions)@[*stage as int],
            ) == idle_stage(instance@.machines[*stage as int] as nat),
            1 <= queue.len() <= instance@.jobs,
            jobs_known(queue@, instance@.jobs),
            times_within(queue@, horizon(instance@, queue.len() as int, *stage as int, 0)),
        ensures
            final(job_completions).len() == old(job_completions).len(),
            final(machine_completions).len() == old(machine_completions).len(),
            forall|k: int|
                0 <= k < old(job_completions).len() && k != *stage ==> final(job_completions)[k]
                    == old(job_completions)[k],
            forall|k: int|
                0 <= k < old(machine_completions).len() && k != *stage ==> final(
                    machine_completions
                )[k] == old(machine_completions)[k],
            stage_state(
                final(job_completions)@[*stage as int],
                final(machine_completions)@[*stage as int],
            ) == greedy_stage(instance@, *stage as int, queue@, queue.len() as nat).0,
            final(job_completions)@[*stage as int].len() == queue.len(),
            jobs_known(final(job_completions)@[*stage as int]@, instance@.jobs),
            times_within(
                final(job_completions)@[*stage as int]@,
                horizon(instance@, queue.len() as int, *stage + 1, 0),
            ),
    {
        let ghost inst = instance@;
        let ghost n = queue.len() as int;
        let ghost q = queue@;
        let ghost s = *stage as int;
        let n_jobs: usize = queue.len();
        let mut waiting: Vec<(u32, u32)> = queue;
        proof {
            lemma_horizon(inst, n, s, 0);
        }
        let mut i: usize = 0;
        while i < n_jobs
            invariant
                inst == instance@,
                inst.well_formed(),
                s == *stage,
                s < inst.stages,
                q.len() == n,
                n == n_jobs,
                1 <= n <= inst.jobs,
                i <= n,
                job_completions.len() == old(job_completions).len(),
                machine_completions.len() == old(machine_completions).len(),
                job_completions.len() == inst.stages,
                machine_completions.len() == inst.stages,
                forall|k: int|
                    0 <= k < job_completions.len() && k != s ==> job_completions[k] == old(
                        job_completions,
                    )[k],
                forall|k: int|
                    0 <= k < machine_completions.len() && k != s ==> machine_completions[k]
                        == old(machine_completions)[k],
                (stage_state(job_completions@[s], machine_completions@[s]), waiting@)
                    == greedy_stage(inst, s, q, i as nat),
                greedy_stage(inst, s, q, i as nat).0.sound(
                    inst.jobs,
                    horizon(inst, n, s, i as int),
                ),
                greedy_stage(inst, s, q, i as nat).0.runs.len() == inst.machines[s],
                greedy_stage(inst, s, q, i as nat).0.done.len() == i,
                waiting.len() == n - i,
                jobs_known(waiting@, inst.jobs),
                times_within(waiting@, horizon(inst, n, s, 0)),
            decreases n - i,
        {
            proof {
                lemma_horizon(inst, n, s, i as int);
                lemma_horizon(inst, n, s, i + 1);
                assert(inst.machines[s] >= 1);
                lemma_greedy_step_sound(
                    inst,
                    s,
                    greedy_stage(inst, s, q, i as nat).0,
                    waiting@,
                    horizon(inst, n, s, i as int),
                    horizon(inst, n, s, 0),
                );
            }
            Self::earliest_completion_time(
                stage,
                &mut waiting,
                job_completions,
                machine_completions,
                instance,
            );
            i += 1;
        }
        proof {
            lemma_horizon(inst, n, s, n);
        }
    }

    /// The completion lists and run lists of all stages before any job was
    /// dispatched.
    pub fn idle_stages(instance: &Instance, n_jobs: usize) -> (r: (
        Vec<Vec<(u32, u32)>>,
        Vec<Vec<Vec<(u32, u32)>>>,
    ))
        requires
            instance@.well_shaped(),
        ensures
            r.0.len() == instance@.stages,
            r.1.len() == instance@.stages,
            forall|k: int|
                0 <= k < instance@.stages ==> stage_state(#[trigger] r.0@[k], r.1@[k])
                    == idle_stage(instance@.machines[k] as nat),
    {
        let n_stages: usize = instance.stages as usize;
        proof {
            instance.lemma_tables();
        }
        let mut job_completions: Vec<Vec<(u32, u32)>> = Vec::with_capacity(n_stages);
        let mut machine_completions: Vec<Vec<Vec<(u32, u32)>>> = Vec::with_capacity(n_stages);
        let mut stage: usize = 0;
        while stage < n_stages
            invariant
                stage <= n_stages,
                n_stages == instance@.stages,
                instance.machines@.len() == n_stages,
                instance@.machines == instance.machines@,
                job_completions.len() == stage,
                machine_completions.len() == stage,
                forall|k: int|
                    0 <= k < stage ==> stage_state(
                        #[trigger] job_completions@[k],
                        machine_completions@[k],
                    ) == idle_stage(instance@.machines[k] as nat),
            decreases n_stages - stage,
        {
            job_completions.push(Vec::with_capacity(n_jobs));
            let machines: u32 = instance.machines[stage];
            let mut runs: Vec<Vec<(u32, u32)>> = Vec::with_capacity(machines as usize);
            let mut machine: u32 = 0;
            while machine < machines
                invariant
                    machine <= machines,
                    runs.len() == machine,
                    forall|m: int| 0 <= m < machine ==> (#[trigger] runs@[m])@.len() == 0,
                decreases machines - machine,
            {
                runs.push(Vec::with_capacity(n_jobs));
                machine += 1;
            }
            assert(runs_of(runs) =~= idle_stage(machines as nat).runs) by {
                assert forall|m: int| 0 <= m < machines implies #[trigger] runs_of(runs)[m]
                    =~= idle_stage(machines as nat).runs[m] by {
                    assert(runs@[m]@.len() == 0);
                }
            }
            machine_completions.push(runs);
            assert(job_completions@[stage as int]@ =~= idle_stage(machines as nat).done);
            stage += 1;
        }
        (job_completions, machine_completions)
    }

    /// Finds, among the machines of `stage`, the one on which `job` completes
    /// first, and that completion time. Of several such machines the first
    /// is taken. Returns `(time, machine)`.
    pub fn choose_machine_for_job(
        job: &u32,
        stage: &u32,
        prev_stage_completion_time: &u32,
        machine_completions: &Vec<Vec<Vec<(u32, u32)>>>,
        instance: &Instance,
    ) -> (r: (u32, u32))
        requires
            instance@.well_shaped(),
            *job < instance@.jobs,
            *stage < instance@.stages,
            *stage < machine_completions.len(),
            1 <= machine_completions[*stage as int].len() <= u32::MAX,
            runs_known(runs_of(machine_completions[*stage as int]), instance@.jobs),
            forall|m: int|
                0 <= m < machine_completions[*stage as int].len() ==> candidate_completion(
                    instance@,
                    *stage as int,
                    *job,
                    *prev_stage_completion_time,
                    #[trigger] runs_of(machine_completions[*stage as int])[m],
                ) <= u32::MAX,
        ensures
            is_chosen_machine(
                instance@,
                *stage as int,
                *job,
                *prev_stage_completion_time,
                runs_of(machine_completions[*stage as int]),
                r.1 as int,
            ),
            r.0 == candidate_completion(
                instance@,
                *stage as int,
                *job,
                *prev_stage_completion_time,
                runs_of(machine_completions[*stage as int])[r.1 as int],
            ),
    {
        let s: usize = *stage as usize;
        let j: usize = *job as usize;
        let ready: u32 = *prev_stage_completion_time;
        let runs = &machine_completions[s];
        let ghost inst = instance@;
        let ghost model = runs_of(*runs);
        proof {
            instance.lemma_tables();
        }
        let work: u32 = instance.processing_times[j][s];
        assert(work == inst.processing(j as int, s as int));
        let mut best_time: u32 = u32::MAX;
        let mut best_machine: u32 = 0;
        let mut machine: usize = 0;
        while machine < runs.len()
            invariant
                inst == instance@,
                inst.well_shaped(),
                j == *job,
                s == *stage,
                j < inst.jobs,
                s < inst.stages,
                ready == *prev_stage_completion_time,
                model == runs_of(*runs),
                1 <= runs.len() <= u32::MAX,
                runs_known(model, inst.jobs),
                work == inst.processing(j as int, s as int),
                forall|m: int|
                    0 <= m < runs.len() ==> candidate_completion(
                        inst,
                        s as int,
                        *job,
                        ready,
                        #[trigger] model[m],
                    ) <= u32::MAX,
                machine <= runs.len(),
                machine == 0 ==> best_time == u32::MAX && best_machine == 0,
                machine > 0 ==> best_machine < machine && best_time == candidate_completion(
                    inst,
                    s as int,
                    *job,
                    ready,
                    model[best_machine as int],
                ),
                forall|k: int|
                    0 <= k < machine ==> best_time <= candidate_completion(
                        inst,
                        s as int,
                        *job,
                        ready,
                        #[trigger] model[k],
                    ),
                forall|k: int|
                    0 <= k < best_machine ==> candidate_completion(
                        inst,
                        s as int,
                        *job,
                        ready,
                        #[trigger] model[k],
                    ) > best_time,
            decreases runs.len() - machine,
        {
            proof {
                instance.lemma_tables();
            }
            let run = &runs[machine];
            assert(run@ == model[machine as int]);
            assert(jobs_known(model[machine as int], inst.jobs));
            let (prev_job, machine_ready): (u32, u32) = if run.len() == 0 {
                (*job, 0u32)
            } else {
                run[run.len() - 1]
            };
            assert((prev_job, machine_ready) == crate::schedule::machine_last(run@, *job));
            assert(prev_job < inst.jobs);
            assert(candidate_completion(inst, s as int, *job, ready, model[machine as int])
                <= u32::MAX);
            let setup: u32 = if work == 0 {
                0
            } else {
                instance.setup_times[s][prev_job as usize][j]
            };
            assert(work != 0 ==> setup == inst.setup(s as int, prev_job as int, j as int));
            let completion_time: u32 = later(machine_ready, ready) + work + setup;
            if best_time > completion_time {
                best_time = completion_time;
                best_machine = machine as u32;
            }
            machine += 1;
        }
        (best_time, best_machine)
    }

    /// Dispatches `job`, which left the previous stage at
    /// `prev_stage_completion_time`, at `stage`: it goes to the machine on
    /// which it completes first, or, without processing time at the stage,
    /// passes through and keeps its time.
    pub fn fifo(
        job: &u32,
        stage: &u32,
        prev_stage_completion_time: &u32,
        job_completions: &mut Vec<Vec<(u32, u32)>>,
        machine_completions: &mut Vec<Vec<Vec<(u32, u32)>>>,
        instance: &Instance,
    )
        requires
            instance@.well_shaped(),
            *job < instance@.jobs,
            *stage < instance@.stages,
            *stage < old(job_completions).len(),
            *stage < old(machine_completions).len(),
            instance@.processing(*job as int, *stage as int) != 0 ==> {
                &&& 1 <= old(machine_completions)[*stage as int].len() <= u32::MAX
                &&& runs_known(runs_of(old(machine_completions)[*stage as int]), instance@.jobs)
                &&& forall|m: int|
                    0 <= m < old(machine_completions)[*stage as int].len()
                        ==> candidate_completion(
                        instance@,
                        *stage as int,
                        *job,
                        *prev_stage_completion_time,
                        #[trigger] runs_of(old(machine_completions)[*stage as int])[m],
                    ) <= u32::MAX
            },
        ensures
            final(job_completions).len() == old(job_completions).len(),
            final(machine_completions).len() == old(machine_completions).len(),
            forall|k: int|
                0 <= k < old(job_completions).len() && k != *stage ==> final(job_completions)[k]
                    == old(job_completions)[k],
            forall|k: int|
                0 <= k < old(machine_completions).len() && k != *stage ==> final(machine_completions)[k]
                    == old(machine_completions)[k],
            stage_state(
                final(job_completions)[*stage as int],
                final(machine_completions)[*stage as int],
            ) == dispatch(
                instance@,
                *stage as int,
                stage_state(
                    old(job_completions)[*stage as int],
                    old(machine_completions)[*stage as int],
                ),
                *job,
                *prev_stage_completion_time,
            ),
    {
        let s: usize = *stage as usize;
        let ghost before = stage_state(job_completions[s as int], machine_completions[s as int]);
        let ghost expected = dispatch(
            instance@,
            s as int,
            before,
            *job,
            *prev_stage_completion_time,
        );
        proof {
            instance.lemma_tables();
        }
        let work: u32 = instance.processing_times[*job as usize][s];
        assert(work == instance@.processing(*job as int, s as int));
        if work != 0 {
            let (time, machine) = Self::choose_machine_for_job(
                job,
                stage,
                prev_stage_completion_time,
                machine_completions,
                instance,
            );
            proof {
                lemma_chosen_machine_is(
                    instance@,
                    s as int,
                    *job,
                    *prev_stage_completion_time,
                    before.runs,
                    machine as int,
                );
            }
            job_completions[s].push((*job, time));
            machine_completions[s][machine as usize].push((*job, time));
            proof {
                let after = stage_state(job_completions[s as int], machine_completions[s as int]);
                assert(after.done =~= expected.done);
                assert(after.runs =~= expected.runs);
            }
        } else {
            job_completions[s].push((*job, *prev_stage_completion_time));
            proof {
                let after = stage_state(job_completions[s as int], machine_completions[s as int]);
                assert(after.done =~= expected.done);
                assert(after.runs =~= expected.runs);
            }
        }
    }

    /// One step of the earliest-completion regime at `stage`: of the jobs in
    /// `jobs_outstanding` the one that would complete first is dispatched and
    /// taken from the list.
    pub fn earliest_completion_time(
        stage: &u32,
        jobs_outstanding: &mut Vec<(u32, u32)>,
        job_completions: &mut Vec<Vec<(u32, u32)>>,
        machine_completions: &mut Vec<Vec<Vec<(u32, u32)>>>,
        instance: &Instance,
    )
        requires
            instance@.well_shaped(),
            *stage < instance@.stages,
            *stage < old(job_completions).len(),
            *stage < old(machine_completions).len(),
            old(jobs_outstanding).len() >= 1,
            jobs_known(old(jobs_outstanding)@, instance@.jobs),
            1 <= old(machine_completions)[*stage as int].len() <= u32::MAX,
            runs_known(runs_of(old(machine_completions)[*stage as int]), instance@.jobs),
            forall|k: int, m: int|
                0 <= k < old(jobs_outstanding).len() && 0 <= m < old(
                    machine_completions,
                )[*stage as int].len() ==> candidate_completion(
                    instance@,
                    *stage as int,
                    (#[trigger] old(jobs_outstanding)@[k]).0,
                    old(jobs_outstanding)@[k].1,
                    #[trigger] runs_of(old(machine_completions)[*stage as int])[m],
                ) <= u32::MAX,
        ensures
            final(job_completions).len() == old(job_completions).len(),
            final(machine_completions).len() == old(machine_completions).len(),
            forall|k: int|
                0 <= k < old(job_completions).len() && k != *stage ==> final(job_completions)[k]
                    == old(job_completions)[k],
            forall|k: int|
                0 <= k < old(machine_completions).len() && k != *stage ==> final(
                    machine_completions
                )[k] == old(machine_completions)[k],
            (
                stage_state(
                    final(job_completions)[*stage as int],
                    final(machine_completions)[*stage as int],
                ),
                final(jobs_outstanding)@,
            ) == greedy_step(
                instance@,
                *stage as int,
                stage_state(
                    old(job_completions)[*stage as int],
                    old(machine_completions)[*stage as int],
                ),
                old(jobs_outstanding)@,
            ),
    {
        let s: usize = *stage as usize;
        let ghost inst = instance@;
        let ghost waiting = jobs_outstanding@;
        let ghost before = stage_state(job_completions[s as int], machine_completions[s as int]);
        let ghost p = next_pick(inst, s as int, waiting, before.runs);
        let ghost expected = greedy_step(inst, s as int, before, waiting);
        let (time, job, machine, start) = Self::choose_fastest_job_and_machine(
            stage,
            jobs_outstanding,
            machine_completions,
            instance,
        );
        proof {
            assert(waiting[p].0 < inst.jobs);
            if inst.processing(job as int, s as int) != 0 {
                lemma_chosen_machine_exists(inst, s as int, job, start, before.runs);
            }
        }
        job_completions[s].push((job, time));
        if machine != u32::MAX {
            machine_completions[s][machine as usize].push((job, time));
        }
        proof {
            let after = stage_state(job_completions[s as int], machine_completions[s as int]);
            assert(after.done =~= expected.0.done);
            assert(after.runs =~= expected.0.runs);
        }
        let mut q: usize = 0;
        while q < jobs_outstanding.len() && !(jobs_outstanding[q].0 == job && jobs_outstanding[q].1
            == start)
            invariant
                jobs_outstanding@ == waiting,
                0 <= q <= p < waiting.len(),
                waiting[p] == (job, start),
            decreases waiting.len() - q,
        {
            q += 1;
        }
        proof {
            let values = finishes(inst, s as int, waiting, before.runs);
            assert(waiting[q as int] == waiting[p]);
            assert(values[q as int] == values[p]);
        }
        jobs_outstanding.remove(q);
    }

    /// Finds among the waiting jobs the one that would complete first at
    /// `stage`, of several such jobs the one that waits first. Returns its
    /// completion time, the job, the machine it goes to and the time at which
    /// the job was ready. For a job without processing time at the stage the
    /// machine is `u32::MAX`: it occupies none.
    pub fn choose_fastest_job_and_machine(
        stage: &u32,
        jobs_outstanding: &Vec<(u32, u32)>,
        machine_completions: &Vec<Vec<Vec<(u32, u32)>>>,
        instance: &Instance,
    ) -> (r: (u32, u32, u32, u32))
        requires
            instance@.well_shaped(),
            *stage < instance@.stages,
            *stage < machine_completions.len(),
            jobs_outstanding.len() >= 1,
            jobs_known(jobs_outstanding@, instance@.jobs),
            1 <= machine_completions[*stage as int].len() <= u32::MAX,
            runs_known(runs_of(machine_completions[*stage as int]), instance@.jobs),
            forall|k: int, m: int|
                0 <= k < jobs_outstanding.len() && 0 <= m < machine_completions[*stage as int].len()
                    ==> candidate_completion(
                    instance@,
                    *stage as int,
                    (#[trigger] jobs_outstanding@[k]).0,
                    jobs_outstanding@[k].1,
                    #[trigger] runs_of(machine_completions[*stage as int])[m],
                ) <= u32::MAX,
        ensures
            ({
                let runs = runs_of(machine_completions[*stage as int]);
                let p = next_pick(instance@, *stage as int, jobs_outstanding@, runs);
                let w = jobs_outstanding@[p];
                &&& is_first_minimum(finishes(instance@, *stage as int, jobs_outstanding@, runs), p)
                &&& r.0 == earliest_finish(instance@, *stage as int, w, runs)
                &&& r.1 == w.0
                &&& r.3 == w.1
                &&& r.2 == if instance@.processing(w.0 as int, *stage as int) == 0 {
                    u32::MAX as int
                } else {
                    chosen_machine(instance@, *stage as int, w.0, w.1, runs)
                }
            }),
    {
        let s: usize = *stage as usize;
        let ghost inst = instance@;
        let ghost waiting = jobs_outstanding@;
        let ghost runs = runs_of(machine_completions[s as int]);
        let ghost values = finishes(inst, s as int, waiting, runs);
        let mut best: (u32, u32, u32, u32) = (u32::MAX, 0, 0, u32::MAX);
        let ghost mut at: int = 0;
        let mut k: usize = 0;
        while k < jobs_outstanding.len()
            invariant
                inst == instance@,
                inst.well_shaped(),
                s == *stage,
                s < inst.stages,
                s < machine_completions.len(),
                waiting == jobs_outstanding@,
                runs == runs_of(machine_completions[s as int]),
                values == finishes(inst, s as int, waiting, runs),
                jobs_known(waiting, inst.jobs),
                1 <= machine_completions[s as int].len() <= u32::MAX,
                runs_known(runs, inst.jobs),
                forall|k: int, m: int|
                    0 <= k < waiting.len() && 0 <= m < runs.len() ==> candidate_completion(
                        inst,
                        s as int,
                        (#[trigger] waiting[k]).0,
                        waiting[k].1,
                        #[trigger] runs[m],
                    ) <= u32::MAX,
                k <= waiting.len(),
                k > 0 ==> {
                    &&& 0 <= at < k
                    &&& best.0 == values[at]
                    &&& best.1 == waiting[at].0
                    &&& best.3 == waiting[at].1
                    &&& best.2 == if inst.processing(waiting[at].0 as int, s as int) == 0 {
                        u32::MAX as int
                    } else {
                        chosen_machine(inst, s as int, waiting[at].0, waiting[at].1, runs)
                    }
                },
                forall|i: int| 0 <= i < k ==> best.0 <= #[trigger] values[i],
                forall|i: int| 0 <= i < at ==> #[trigger] values[i] > best.0,
            decreases waiting.len() - k,
        {
            let (job, ready) = jobs_outstanding[k];
            proof {
                instance.lemma_tables();
                assert(waiting[k as int].0 < inst.jobs);
            }
            let work: u32 = instance.processing_times[job as usize][s];
            assert(work == inst.processing(job as int, s as int));
            let current: (u32, u32) = if work != 0 {
                assert forall|m: int| 0 <= m < runs.len() implies candidate_completion(
                    inst,
                    s as int,
                    job,
                    ready,
                    #[trigger] runs[m],
                ) <= u32::MAX by {
                    assert(candidate_completion(
                        inst,
                        s as int,
                        waiting[k as int].0,
                        waiting[k as int].1,
                        runs[m],
                    ) <= u32::MAX);
                }
                let found = Self::choose_machine_for_job(
                    &job,
                    stage,
                    &ready,
                    machine_completions,
                    instance,
                );
                proof {
                    lemma_chosen_machine_is(inst, s as int, job, ready, runs, found.1 as int);
                }
                found
            } else {
                (ready, u32::MAX)
            };
            assert(current.0 == values[k as int]);
            if k == 0 || best.0 > current.0 {
                best = (current.0, job, current.1, ready);
                proof {
                    at = k as int;
                }
            }
            k += 1;
        }
        proof {
            assert(is_first_minimum(values, at));
            lemma_first_minimum_is(values, at);
        }
        best
    }
}

} // verus!
