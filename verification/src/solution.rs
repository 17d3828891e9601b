//! A solved instance, as it is reported.

use crate::instance::Instance;
use crate::makespan::schedule_view;
use vstd::prelude::*;

verus! {

/// The size of an instance, a makespan, and the run list of every machine
/// of every stage behind it.
pub struct Solution {
    pub jobs: u32,
    pub stages: u32,
    pub machines: Vec<u32>,
    pub makespan: u32,
    pub machine_completions: Vec<Vec<Vec<(u32, u32)>>>,
}

impl Solution {
    /// The solution of `instance` with the given run lists and makespan.
    pub fn new(
        machine_completions: Vec<Vec<Vec<(u32, u32)>>>,
        makespan: u32,
        instance: &Instance,
    ) -> (r: Solution)
        ensures
            r.jobs == instance.jobs,
            r.stages == instance.stages,
            r.machines@ == instance.machines@,
            r.makespan == makespan,
            schedule_view(r.machine_completions) == schedule_view(machine_completions),
    {
        Solution {
            jobs: instance.jobs,
            stages: instance.stages,
            machines: crate::instance::copy_row(&instance.machines),
            makespan,
            machine_completions,
        }
    }
}

} // verus!
