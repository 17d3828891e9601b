//! What the command line selects.

use vstd::prelude::*;

verus! {

/// The run modes that the command line can switch on.
#[derive(Clone, Copy, Debug, Default)]
pub struct Args {
    /// Run all problem instances.
    pub run_all: bool,
    /// Run through all parameter values.
    pub all_params: bool,
    /// Steady state generational scheme.
    pub steady_state: bool,
    /// Local search after mutation.
    pub local_search: bool,
    /// Run the earliest-completion construction.
    pub mddr: bool,
    /// Run the NEH construction.
    pub neh: bool,
    /// Run the iterated greedy search.
    pub iterated_greedy: bool,
}

/// What a run does.
#[derive(Clone, Copy, Debug, PartialEq, Eq, Structural)]
pub enum Mode {
    Mddr,
    Neh,
    IteratedGreedy,
    Genetic,
}

impl Args {
    /// The procedure that the switches select: the first of MDDR, NEH and
    /// iterated greedy that is switched on, the genetic algorithm if none is.
    pub fn mode(&self) -> (r: Mode)
        ensures
            r == if self.mddr {
                Mode::Mddr
            } else if self.neh {
                Mode::Neh
            } else if self.iterated_greedy {
                Mode::IteratedGreedy
            } else {
                Mode::Genetic
            },
    {
        if self.mddr {
            Mode::Mddr
        } else if self.neh {
            Mode::Neh
        } else if self.iterated_greedy {
            Mode::IteratedGreedy
        } else {
            Mode::Genetic
        }
    }
}

} // verus!
