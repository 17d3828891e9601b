//! The permutation schedule of the NEH order: every stage takes the jobs in
//! the same order, that of descending total processing time.

use crate::horizon::{horizon, jobs_known, lemma_horizon, times_within};
use crate::makespan::{copy_pairs, latest_time, stage_state, Makespan};
use crate::neh::{is_neh_order, sort_jobs};
use crate::schedule::{fifo_stage, idle_stage, initial_queue, latest, StageState};
use vstd::prelude::*;

verus! {

/// What happens at `stage` when every stage takes the jobs in the order
/// `order`, each job as soon as it has left the stage before.
pub open spec fn permutation_outcome(
    inst: crate::instance::InstanceView,
    order: Seq<u32>,
    stage: nat,
) -> StageState
    decreases stage,
{
    let queue = if stage == 0 {
        initial_queue(order)
    } else {
        permutation_outcome(inst, order, (stage - 1) as nat).done
    };
    fifo_stage(inst, stage as int, queue, queue.len())
}

/// The makespan of the permutation schedule of `order`.
pub open spec fn permutation_makespan(inst: crate::instance::InstanceView, order: Seq<u32>) -> int {
    latest(permutation_outcome(inst, order, (inst.stages - 1) as nat).done)
}

/// The permutation schedule of the NEH order as a construction of its own.
pub struct NehP {}

impl NehP {
    /// Schedules the jobs of the engine's instance at every stage in the
    /// order of descending total processing time. Returns the order and the
    /// makespan. The engine is left as it was.
    pub fn neh_p(makespan: &mut Makespan) -> (r: (Vec<u32>, u32))
        requires
            old(makespan).instance@.well_formed(),
        ensures
            is_neh_order(old(makespan).instance@, r.0@),
            r.1 == permutation_makespan(old(makespan).instance@, r.0@),
            *final(makespan) == *old(makespan),
    {
        let ghost inst = makespan.instance@;
        let job_order: Vec<u32> = sort_jobs(&makespan.instance);
        let ghost order = job_order@;
        let ghost n = order.len() as int;
        let stages: u32 = makespan.instance.stages;
        let (mut job_completions, mut machine_completions) = Makespan::idle_stages(
            &makespan.instance,
            job_order.len(),
        );
        let mut prev_stage_completions: Vec<(u32, u32)> = Makespan::release(&job_order);
        proof {
            lemma_horizon(inst, n, 0, 0);
        }
        let mut stage: u32 = 0;
        while stage < stages
            invariant
                inst == makespan.instance@,
                *makespan == *old(makespan),
                inst.well_formed(),
                order == job_order@,
                is_neh_order(inst, order),
                n == order.len(),
                stages == inst.stages,
                stage <= stages,
                job_completions.len() == stages,
                machine_completions.len() == stages,
                stage > 0 ==> stage_state(
                    job_completions@[stage - 1],
                    machine_completions@[stage - 1],
                ) == permutation_outcome(inst, order, (stage - 1) as nat),
                forall|k: int|
                    stage <= k < stages ==> stage_state(
                        #[trigger] job_completions@[k],
                        machine_completions@[k],
                    ) == idle_stage(inst.machines[k] as nat),
                prev_stage_completions@ == if stage == 0 {
                    initial_queue(order)
                } else {
                    permutation_outcome(inst, order, (stage - 1) as nat).done
                },
                prev_stage_completions.len() == n,
                jobs_known(prev_stage_completions@, inst.jobs),
                stage < stages ==> times_within(
                    prev_stage_completions@,
                    horizon(inst, n, stage as int, 0),
                ),
            decreases stages - stage,
        {
            Makespan::fifo_pass(
                &stage,
                &prev_stage_completions,
                &mut job_completions,
                &mut machine_completions,
                &makespan.instance,
            );
            prev_stage_completions = copy_pairs(&job_completions[stage as usize]);
            stage += 1;
        }
        let latest = latest_time(&job_completions[(stages - 1) as usize]);
        (job_order, latest)
    }
}

} // verus!
