//! Dispatching by earliest completion: at every stage the job that can
//! complete first goes next.

use crate::horizon::{horizon, jobs_known, lemma_horizon, times_within};
use crate::makespan::{copy_pairs, latest_time, schedule_view, stage_state, Makespan};
use crate::permutation::ascending_jobs;
use crate::schedule::{
    greedy_makespan, greedy_outcome, greedy_schedule, idle_stage, initial_queue, numbering,
};
use vstd::prelude::*;

verus! {

/// The earliest-completion dispatching rule as a construction of its own.
pub struct MDDR {}

impl MDDR {
    /// Schedules the jobs of the engine's instance stage by stage, each time
    /// dispatching the waiting job that would complete first. Returns the
    /// makespan and the run list of every machine of every stage. The
    /// engine is left as it was.
    pub fn mddr(makespan: &mut Makespan) -> (r: (u32, Vec<Vec<Vec<(u32, u32)>>>))
        requires
            old(makespan).instance@.well_formed(),
        ensures
            r.0 == greedy_makespan(old(makespan).instance@),
            schedule_view(r.1) == greedy_schedule(old(makespan).instance@),
            *final(makespan) == *old(makespan),
    {
        let ghost inst = makespan.instance@;
        let ghost n = inst.jobs as int;
        let stages: u32 = makespan.instance.stages;
        let (mut job_completions, mut machine_completions) = Makespan::idle_stages(
            &makespan.instance,
            makespan.instance.jobs as usize,
        );
        let jobs = ascending_jobs(makespan.instance.jobs);
        let mut prev_stage_completions: Vec<(u32, u32)> = Makespan::release(&jobs);
        proof {
            lemma_horizon(inst, n, 0, 0);
        }
        let mut stage: u32 = 0;
        while stage < stages
            invariant
                inst == makespan.instance@,
                *makespan == *old(makespan),
                inst.well_formed(),
                n == inst.jobs,
                stages == inst.stages,
                stage <= stages,
                job_completions.len() == stages,
                machine_completions.len() == stages,
                forall|k: int|
                    0 <= k < stage ==> stage_state(
                        #[trigger] job_completions@[k],
                        machine_completions@[k],
                    ) == greedy_outcome(inst, k as nat),
                forall|k: int|
                    stage <= k < stages ==> stage_state(
                        #[trigger] job_completions@[k],
                        machine_completions@[k],
                    ) == idle_stage(inst.machines[k] as nat),
                prev_stage_completions@ == if stage == 0 {
                    initial_queue(numbering(inst.jobs))
                } else {
                    greedy_outcome(inst, (stage - 1) as nat).done
                },
                prev_stage_completions.len() == n,
                jobs_known(prev_stage_completions@, inst.jobs),
                stage < stages ==> times_within(
                    prev_stage_completions@,
                    horizon(inst, n, stage as int, 0),
                ),
            decreases stages - stage,
        {
            Makespan::earliest_pass(
                &stage,
                prev_stage_completions,
                &mut job_completions,
                &mut machine_completions,
                &makespan.instance,
            );
            prev_stage_completions = copy_pairs(&job_completions[stage as usize]);
            stage += 1;
        }
        let latest = latest_time(&job_completions[(stages - 1) as usize]);
        proof {
            assert(stage_state(
                job_completions@[stages - 1],
                machine_completions@[stages - 1],
            ) == greedy_outcome(inst, (stages - 1) as nat));
            assert(schedule_view(machine_completions) =~= greedy_schedule(inst)) by {
                assert forall|k: int| 0 <= k < stages implies schedule_view(
                    machine_completions,
                )[k] == greedy_schedule(inst)[k] by {
                    assert(stage_state(job_completions@[k], machine_completions@[k])
                        == greedy_outcome(inst, k as nat));
                }
            }
        }
        (latest, machine_completions)
    }
}

} // verus!
