//! A candidate solution: a job order with the makespan last computed for it.

use crate::instance::Instance;
use crate::makespan::{add_count, Makespan};
use crate::permutation::{ascending_jobs, is_permutation, lemma_same_elements};
use crate::random::shuffle;
use crate::schedule::{makespan_of, valid_order};
use rand::rngs::StdRng;
use std::cmp::Ordering;
use vstd::prelude::*;
use vstd::std_specs::cmp::{PartialEqSpecImpl, PartialOrdSpecImpl};
use vstd::std_specs::convert::FromSpecImpl;

verus! {

/// A job order, the makespan cached for it, and whether the order has
/// changed since the makespan was computed.
#[derive(Debug)]
pub struct Chromosome {
    pub jobs: Vec<u32>,
    pub makespan: Option<u32>,
    pub updated: bool,
}

/// The mathematical content of a [`Chromosome`].
pub struct ChromosomeView {
    pub jobs: Seq<u32>,
    pub makespan: Option<u32>,
    pub updated: bool,
}

impl View for Chromosome {
    type V = ChromosomeView;

    open spec fn view(&self) -> ChromosomeView {
        ChromosomeView { jobs: self.jobs@, makespan: self.makespan, updated: self.updated }
    }
}

impl Clone for Chromosome {
    fn clone(&self) -> (r: Self)
        ensures
            r@ == self@,
    {
        let jobs = self.jobs.clone();
        assert(jobs@ =~= self.jobs@);
        Chromosome { jobs, makespan: self.makespan, updated: self.updated }
    }
}

impl Chromosome {
    /// The cached makespan is that of the job order.
    pub open spec fn evaluated(self, inst: crate::instance::InstanceView) -> bool {
        self.makespan == Some(makespan_of(inst, self.jobs@) as u32) && makespan_of(
            inst,
            self.jobs@,
        ) <= u32::MAX && !self.updated
    }

    /// A chromosome with the jobs of `instance` in a random order, not yet
    /// evaluated.
    pub fn new(instance: &Instance, rng: &mut StdRng) -> (r: Chromosome)
        ensures
            is_permutation(r.jobs@, instance@.jobs),
            r.makespan.is_none(),
            r.updated,
    {
        let mut jobs: Vec<u32> = ascending_jobs(instance.jobs);
        let ghost before = jobs@;
        shuffle(&mut jobs, rng);
        proof {
            lemma_same_elements(before, jobs@, instance@.jobs);
        }
        Chromosome { jobs, makespan: None, updated: true }
    }

    /// A chromosome with a makespan that is already known.
    pub fn new_with_makespan(jobs: Vec<u32>, m: u32) -> (r: Self)
        ensures
            r.jobs@ == jobs@,
            r.makespan == Some(m),
            !r.updated,
    {
        Chromosome { jobs, makespan: Some(m), updated: false }
    }

    /// Evaluates the job order and caches its makespan.
    pub fn makespan(&mut self, mks: &mut Makespan)
        requires
            old(mks).instance@.well_formed(),
            valid_order(old(self).jobs@, old(mks).instance@.jobs),
        ensures
            final(self).jobs == old(self).jobs,
            final(self).makespan == Some(makespan_of(old(mks).instance@, old(self).jobs@) as u32),
            makespan_of(old(mks).instance@, old(self).jobs@) <= u32::MAX,
            !final(self).updated,
            final(mks).instance == old(mks).instance,
            final(mks).count == add_count(old(mks).count, 1),
    {
        let (m, _) = mks.makespan(&self.jobs);
        self.makespan = Some(m);
        self.updated = false;
    }
}

impl PartialEq for Chromosome {
    /// Chromosomes count as equal when their cached makespans are.
    fn eq(&self, other: &Self) -> (r: bool) {
        match (self.makespan, other.makespan) {
            (Some(a), Some(b)) => a == b,
            (None, None) => true,
            _ => false,
        }
    }
}

impl PartialEqSpecImpl for Chromosome {
    open spec fn obeys_eq_spec() -> bool {
        true
    }

    open spec fn eq_spec(&self, other: &Self) -> bool {
        self.makespan == other.makespan
    }
}

impl PartialOrd for Chromosome {
    /// Chromosomes are ordered by their cached makespans, the lower the
    /// better; one that is not evaluated compares with none.
    fn partial_cmp(&self, other: &Self) -> (r: Option<Ordering>) {
        match (self.makespan, other.makespan) {
            (Some(a), Some(b)) => {
                if a < b {
                    Some(Ordering::Less)
                } else if a == b {
                    Some(Ordering::Equal)
                } else {
                    Some(Ordering::Greater)
                }
            },
            (None, None) => Some(Ordering::Equal),
            _ => None,
        }
    }
}

impl PartialOrdSpecImpl for Chromosome {
    open spec fn obeys_partial_cmp_spec() -> bool {
        true
    }

    open spec fn partial_cmp_spec(&self, other: &Self) -> Option<Ordering> {
        match (self.makespan, other.makespan) {
            (Some(a), Some(b)) => {
                if a < b {
                    Some(Ordering::Less)
                } else if a == b {
                    Some(Ordering::Equal)
                } else {
                    Some(Ordering::Greater)
                }
            },
            (None, None) => Some(Ordering::Equal),
            _ => None,
        }
    }
}

impl From<Vec<u32>> for Chromosome {
    /// A chromosome of the given job order, not yet evaluated.
    fn from(jobs: Vec<u32>) -> (r: Self) {
        Chromosome { jobs, makespan: None, updated: true }
    }
}

impl FromSpecImpl<Vec<u32>> for Chromosome {
    open spec fn obeys_from_spec() -> bool {
        true
    }

    open spec fn from_spec(jobs: Vec<u32>) -> Self {
        Chromosome { jobs, makespan: None, updated: true }
    }
}

} // verus!
