//! The problem description of a hybrid flow shop.

use vstd::prelude::*;

verus! {

/// A hybrid flow shop: `jobs` jobs pass through `stages` stages in a fixed
/// order; stage `s` has `machines[s]` identical machines.
///
/// `processing_times[job][stage]` is the time a job needs at a stage, where 0
/// means that the job skips the stage. `setup_times[stage][previous][job]` is
/// the time a machine of the stage needs to change over from `previous` to
/// `job`; for a machine that has not run yet the entry
/// `setup_times[stage][job][job]` is charged.
#[derive(Debug)]
pub struct Instance {
    pub jobs: u32,
    pub stages: u32,
    pub machines: Vec<u32>,
    pub processing_times: Vec<Vec<u32>>,
    pub setup_times: Vec<Vec<Vec<u32>>>,
}

/// The mathematical content of an [`Instance`].
pub struct InstanceView {
    pub jobs: nat,
    pub stages: nat,
    pub machines: Seq<u32>,
    pub processing_times: Seq<Seq<u32>>,
    pub setup_times: Seq<Seq<Seq<u32>>>,
}

impl View for Instance {
    type V = InstanceView;

    open spec fn view(&self) -> InstanceView {
        InstanceView {
            jobs: self.jobs as nat,
            stages: self.stages as nat,
            machines: self.machines@,
            processing_times: self.processing_times.deep_view(),
            setup_times: self.setup_times.deep_view(),
        }
    }
}

impl InstanceView {
    /// The longest time one operation (setup plus processing) may take so that
    /// no schedule of the instance can run past `u32::MAX`.
    pub open spec fn step_bound(self) -> int {
        if self.jobs * self.stages > 0 {
            (u32::MAX as int) / ((self.jobs * self.stages) as int)
        } else {
            0
        }
    }

    /// Processing time of `job` at `stage`.
    pub open spec fn processing(self, job: int, stage: int) -> int {
        self.processing_times[job][stage] as int
    }

    /// Setup time at `stage` for `job` after `previous`.
    pub open spec fn setup(self, stage: int, previous: int, job: int) -> int {
        self.setup_times[stage][previous][job] as int
    }

    /// The tables have the dimensions that `jobs` and `stages` announce.
    pub open spec fn well_shaped(self) -> bool {
        &&& self.jobs >= 1
        &&& self.stages >= 1
        &&& self.machines.len() == self.stages
        &&& self.processing_times.len() == self.jobs
        &&& forall|j: int|
            0 <= j < self.jobs ==> (#[trigger] self.processing_times[j]).len() == self.stages
        &&& self.setup_times.len() == self.stages
        &&& forall|s: int|
            0 <= s < self.stages ==> (#[trigger] self.setup_times[s]).len() == self.jobs
        &&& forall|s: int, i: int|
            0 <= s < self.stages && 0 <= i < self.jobs ==> (#[trigger] self.setup_times[s][i]).len()
                == self.jobs
    }

    /// Every stage has a machine.
    pub open spec fn staffed(self) -> bool {
        forall|s: int| 0 <= s < self.stages ==> #[trigger] self.machines[s] >= 1
    }

    /// Every operation that is carried out fits the step bound.
    pub open spec fn bounded(self) -> bool {
        forall|s: int, i: int, j: int|
            0 <= s < self.stages && 0 <= i < self.jobs && 0 <= j < self.jobs && self.processing(
                j,
                s,
            ) != 0 ==> self.processing(j, s) + #[trigger] self.setup(s, i, j) <= self.step_bound()
    }

    /// What the scheduling engine asks of an instance.
    pub open spec fn well_formed(self) -> bool {
        &&& self.well_shaped()
        &&& self.staffed()
        &&& self.bounded()
    }
}

impl Instance {
    /// The tables of a well-shaped instance have the announced dimensions,
    /// and their entries are the entries of the view.
    pub proof fn lemma_tables(&self)
        requires
            self@.well_shaped(),
        ensures
            self.machines@.len() == self.stages,
            self.processing_times@.len() == self.jobs,
            forall|j: int|
                0 <= j < self.jobs ==> (#[trigger] self.processing_times@[j])@.len()
                    == self.stages,
            forall|j: int, s: int|
                0 <= j < self.jobs && 0 <= s < self.stages ==> self.processing_times@[j]@[s]
                    == #[trigger] self@.processing(j, s),
            self.setup_times@.len() == self.stages,
            forall|s: int|
                0 <= s < self.stages ==> (#[trigger] self.setup_times@[s])@.len() == self.jobs,
            forall|s: int, i: int|
                0 <= s < self.stages && 0 <= i < self.jobs ==> (
                #[trigger] self.setup_times@[s]@[i])@.len() == self.jobs,
            forall|s: int, i: int, j: int|
                0 <= s < self.stages && 0 <= i < self.jobs && 0 <= j < self.jobs
                    ==> self.setup_times@[s]@[i]@[j] == #[trigger] self@.setup(s, i, j),
    {
        let v = self@;
        assert forall|j: int| 0 <= j < self.jobs implies (
        #[trigger] self.processing_times@[j])@.len() == self.stages by {
            assert(v.processing_times[j].len() == self.stages);
        }
        assert forall|s: int| 0 <= s < self.stages implies (#[trigger] self.setup_times@[s])@.len()
            == self.jobs by {
            assert(v.setup_times[s].len() == self.jobs);
        }
        assert forall|s: int, i: int| 0 <= s < self.stages && 0 <= i < self.jobs implies (
        #[trigger] self.setup_times@[s]@[i])@.len() == self.jobs by {
            assert(v.setup_times[s].len() == self.jobs);
            assert(v.setup_times[s][i].len() == self.jobs);
        }
        assert forall|j: int, s: int| 0 <= j < self.jobs && 0 <= s < self.stages implies
            self.processing_times@[j]@[s] == #[trigger] v.processing(j, s) by {
            assert(v.processing_times[j].len() == self.stages);
        }
        assert forall|s: int, i: int, j: int|
            0 <= s < self.stages && 0 <= i < self.jobs && 0 <= j < self.jobs implies
            self.setup_times@[s]@[i]@[j] == #[trigger] v.setup(s, i, j) by {
            assert(v.setup_times[s].len() == self.jobs);
            assert(v.setup_times[s][i].len() == self.jobs);
        }
    }

    /// The view has the lengths and the entries of the tables.
    pub proof fn lemma_view(&self)
        ensures
            self@.machines == self.machines@,
            self@.processing_times.len() == self.processing_times@.len(),
            forall|j: int|
                0 <= j < self.processing_times@.len() ==> #[trigger] self@.processing_times[j]
                    == self.processing_times@[j]@,
            self@.setup_times.len() == self.setup_times@.len(),
            forall|s: int|
                0 <= s < self.setup_times@.len() ==> (#[trigger] self@.setup_times[s]).len()
                    == self.setup_times@[s]@.len(),
            forall|s: int, i: int|
                0 <= s < self.setup_times@.len() && 0 <= i < self.setup_times@[s]@.len()
                    ==> #[trigger] self@.setup_times[s][i] == self.setup_times@[s]@[i]@,
    {
        assert forall|j: int| 0 <= j < self.processing_times@.len() implies
            #[trigger] self@.processing_times[j] == self.processing_times@[j]@ by {
            assert(self.processing_times@[j].deep_view() =~= self.processing_times@[j]@);
        }
        assert forall|s: int, i: int|
            0 <= s < self.setup_times@.len() && 0 <= i < self.setup_times@[s]@.len() implies
            #[trigger] self@.setup_times[s][i] == self.setup_times@[s]@[i]@ by {
            assert(self.setup_times@[s]@[i].deep_view() =~= self.setup_times@[s]@[i]@);
        }
    }

    /// Tells whether the tables have the dimensions that `jobs` and
    /// `stages` announce.
    pub fn is_well_shaped(&self) -> (r: bool)
        ensures
            r == self@.well_shaped(),
    {
        proof {
            self.lemma_view();
        }
        if self.jobs < 1 || self.stages < 1 {
            return false;
        }
        let jobs: usize = self.jobs as usize;
        let stages: usize = self.stages as usize;
        if self.machines.len() != stages || self.processing_times.len() != jobs
            || self.setup_times.len() != stages {
            return false;
        }
        let mut j: usize = 0;
        while j < jobs
            invariant
                j <= jobs,
                jobs == self.jobs,
                stages == self.stages,
                self.processing_times@.len() == jobs,
                forall|k: int| 0 <= k < j ==> (#[trigger] self@.processing_times[k]).len() == stages,
            decreases jobs - j,
        {
            proof {
                self.lemma_view();
            }
            if self.processing_times[j].len() != stages {
                assert(self@.processing_times[j as int].len() != stages);
                return false;
            }
            j += 1;
        }
        let mut s: usize = 0;
        while s < stages
            invariant
                s <= stages,
                jobs == self.jobs,
                stages == self.stages,
                self.setup_times@.len() == stages,
                forall|k: int| 0 <= k < s ==> (#[trigger] self@.setup_times[k]).len() == jobs,
                forall|k: int, i: int|
                    0 <= k < s && 0 <= i < jobs ==> (#[trigger] self@.setup_times[k][i]).len()
                        == jobs,
            decreases stages - s,
        {
            proof {
                self.lemma_view();
            }
            if self.setup_times[s].len() != jobs {
                assert(self@.setup_times[s as int].len() != jobs);
                return false;
            }
            let mut i: usize = 0;
            while i < jobs
                invariant
                    i <= jobs,
                    s < stages,
                    jobs == self.jobs,
                    stages == self.stages,
                    self.setup_times@.len() == stages,
                    self.setup_times@[s as int]@.len() == jobs,
                    forall|k: int|
                        0 <= k < i ==> (#[trigger] self@.setup_times[s as int][k]).len() == jobs,
                decreases jobs - i,
            {
                proof {
                    self.lemma_view();
                }
                if self.setup_times[s][i].len() != jobs {
                    assert(self@.setup_times[s as int][i as int].len() != jobs);
                    return false;
                }
                i += 1;
            }
            s += 1;
        }
        true
    }

    /// Tells whether every stage has a machine.
    pub fn is_staffed(&self) -> (r: bool)
        requires
            self@.well_shaped(),
        ensures
            r == self@.staffed(),
    {
        proof {
            self.lemma_view();
        }
        let mut s: usize = 0;
        while s < self.machines.len()
            invariant
                s <= self.machines.len(),
                self.machines@.len() == self@.stages,
                self@.machines == self.machines@,
                forall|k: int| 0 <= k < s ==> #[trigger] self@.machines[k] >= 1,
            decreases self.machines.len() - s,
        {
            if self.machines[s] < 1 {
                assert(!(self@.machines[s as int] >= 1));
                return false;
            }
            s += 1;
        }
        true
    }

    /// Tells whether every operation fits the step bound.
    pub fn is_bounded(&self) -> (r: bool)
        requires
            self@.well_shaped(),
        ensures
            r == self@.bounded(),
    {
        let ghost v = self@;
        let jobs: usize = self.jobs as usize;
        let stages: usize = self.stages as usize;
        assert(self.jobs * self.stages <= u32::MAX * u32::MAX) by (nonlinear_arith);
        assert(self.jobs * self.stages >= 1) by (nonlinear_arith)
            requires
                self.jobs >= 1,
                self.stages >= 1,
        ;
        let bound: u64 = 0xffff_ffffu64 / ((self.jobs as u64) * (self.stages as u64));
        assert(bound == v.step_bound());
        let mut s: usize = 0;
        while s < stages
            invariant
                s <= stages,
                v == self@,
                v.well_shaped(),
                jobs == self.jobs,
                stages == self.stages,
                bound == v.step_bound(),
                forall|k: int, i: int, j: int|
                    0 <= k < s && 0 <= i < jobs && 0 <= j < jobs && v.processing(j, k) != 0
                        ==> v.processing(j, k) + #[trigger] v.setup(k, i, j) <= bound,
            decreases stages - s,
        {
            let mut j: usize = 0;
            while j < jobs
                invariant
                    j <= jobs,
                    s < stages,
                    v == self@,
                    v.well_shaped(),
                    jobs == self.jobs,
                    stages == self.stages,
                    bound == v.step_bound(),
                    forall|i: int, k: int|
                        0 <= i < jobs && 0 <= k < j && v.processing(k, s as int) != 0
                            ==> v.processing(k, s as int) + #[trigger] v.setup(s as int, i, k)
                            <= bound,
                decreases jobs - j,
            {
                proof {
                    self.lemma_tables();
                }
                let work: u32 = self.processing_times[j][s];
                assert(work == v.processing(j as int, s as int));
                if work != 0 {
                    let mut i: usize = 0;
                    while i < jobs
                        invariant
                            i <= jobs,
                            j < jobs,
                            s < stages,
                            v == self@,
                            v.well_shaped(),
                            jobs == self.jobs,
                            stages == self.stages,
                            bound == v.step_bound(),
                            work == v.processing(j as int, s as int),
                            work != 0,
                            forall|k: int|
                                0 <= k < i ==> work + #[trigger] v.setup(s as int, k, j as int)
                                    <= bound,
                        decreases jobs - i,
                    {
                        proof {
                            self.lemma_tables();
                        }
                        let setup: u32 = self.setup_times[s][i][j];
                        assert(setup == v.setup(s as int, i as int, j as int));
                        if work as u64 + setup as u64 > bound {
                            proof {
                                let (ss, ii, jj) = (s as int, i as int, j as int);
                                assert(0 <= ss < v.stages && 0 <= ii < v.jobs && 0 <= jj < v.jobs);
                                assert(v.processing(jj, ss) != 0);
                                assert(!(v.processing(jj, ss) + v.setup(ss, ii, jj)
                                    <= v.step_bound()));
                                assert(!v.bounded());
                            }
                            return false;
                        }
                        i += 1;
                    }
                }
                j += 1;
            }
            s += 1;
        }
        true
    }

    /// Tells whether the instance is what the scheduling engine asks for.
    pub fn check(&self) -> (r: bool)
        ensures
            r == self@.well_formed(),
    {
        self.is_well_shaped() && self.is_staffed() && self.is_bounded()
    }
}

/// Copies a row of numbers.
pub fn copy_row(row: &Vec<u32>) -> (r: Vec<u32>)
    ensures
        r@ == row@,
{
    let mut r: Vec<u32> = Vec::with_capacity(row.len());
    let mut i: usize = 0;
    while i < row.len()
        invariant
            i <= row.len(),
            r@ == row@.take(i as int),
        decreases row.len() - i,
    {
        r.push(row[i]);
        i += 1;
    }
    r
}

/// Copies a table of numbers.
pub fn copy_table(table: &Vec<Vec<u32>>) -> (r: Vec<Vec<u32>>)
    ensures
        r.deep_view() == table.deep_view(),
{
    let mut r: Vec<Vec<u32>> = Vec::with_capacity(table.len());
    let mut i: usize = 0;
    while i < table.len()
        invariant
            i <= table.len(),
            r.len() == i,
            forall|k: int| 0 <= k < i ==> r@[k]@ == table@[k]@,
        decreases table.len() - i,
    {
        r.push(copy_row(&table[i]));
        i += 1;
    }
    assert(r.deep_view() =~~= table.deep_view());
    r
}

/// Tells whether two rows of numbers are the same.
pub fn same_row(a: &Vec<u32>, b: &Vec<u32>) -> (r: bool)
    ensures
        r == (a@ == b@),
{
    if a.len() != b.len() {
        return false;
    }
    let mut i: usize = 0;
    while i < a.len()
        invariant
            i <= a.len(),
            a.len() == b.len(),
            forall|k: int| 0 <= k < i ==> a@[k] == b@[k],
        decreases a.len() - i,
    {
        if a[i] != b[i] {
            return false;
        }
        i += 1;
    }
    assert(a@ =~= b@);
    true
}

/// Tells whether two tables of numbers are the same.
pub fn same_table(a: &Vec<Vec<u32>>, b: &Vec<Vec<u32>>) -> (r: bool)
    ensures
        r == (a.deep_view() == b.deep_view()),
{
    if a.len() != b.len() {
        assert(a.deep_view().len() != b.deep_view().len());
        return false;
    }
    let mut i: usize = 0;
    while i < a.len()
        invariant
            i <= a.len(),
            a.len() == b.len(),
            forall|k: int| 0 <= k < i ==> a@[k]@ == b@[k]@,
        decreases a.len() - i,
    {
        if !same_row(&a[i], &b[i]) {
            assert(a.deep_view()[i as int] =~= a@[i as int]@);
            assert(b.deep_view()[i as int] =~= b@[i as int]@);
            return false;
        }
        i += 1;
    }
    assert(a.deep_view() =~~= b.deep_view());
    true
}

/// Tells whether two lists of tables of numbers are the same.
pub fn same_tables(a: &Vec<Vec<Vec<u32>>>, b: &Vec<Vec<Vec<u32>>>) -> (r: bool)
    ensures
        r == (a.deep_view() == b.deep_view()),
{
    if a.len() != b.len() {
        assert(a.deep_view().len() != b.deep_view().len());
        return false;
    }
    let mut i: usize = 0;
    while i < a.len()
        invariant
            i <= a.len(),
            a.len() == b.len(),
            forall|k: int| 0 <= k < i ==> a@[k].deep_view() == b@[k].deep_view(),
        decreases a.len() - i,
    {
        if !same_table(&a[i], &b[i]) {
            assert(a.deep_view()[i as int] == a@[i as int].deep_view());
            assert(b.deep_view()[i as int] == b@[i as int].deep_view());
            return false;
        }
        i += 1;
    }
    assert(a.deep_view() =~~= b.deep_view());
    true
}

impl Instance {
    /// Tells whether `other` describes the same flow shop.
    pub fn same_as(&self, other: &Instance) -> (r: bool)
        ensures
            r == (self@ == other@),
    {
        self.jobs == other.jobs && self.stages == other.stages && same_row(
            &self.machines,
            &other.machines,
        ) && same_table(&self.processing_times, &other.processing_times) && same_tables(
            &self.setup_times,
            &other.setup_times,
        )
    }
}

impl Clone for Instance {
    fn clone(&self) -> (r: Self)
        ensures
            r@ == self@,
    {
        let mut setup_times: Vec<Vec<Vec<u32>>> = Vec::with_capacity(self.setup_times.len());
        let mut s: usize = 0;
        while s < self.setup_times.len()
            invariant
                s <= self.setup_times.len(),
                setup_times.len() == s,
                forall|k: int|
                    0 <= k < s ==> setup_times@[k].deep_view() == self.setup_times@[k].deep_view(),
            decreases self.setup_times.len() - s,
        {
            setup_times.push(copy_table(&self.setup_times[s]));
            s += 1;
        }
        assert(setup_times.deep_view() =~~= self.setup_times.deep_view());
        Instance {
            jobs: self.jobs,
            stages: self.stages,
            machines: copy_row(&self.machines),
            processing_times: copy_table(&self.processing_times),
            setup_times,
        }
    }
}

} // verus!
