//! Crowding: survivors are chosen by duels between a child and the parent
//! that is closest to it, so that the population keeps its variety.

use crate::chromosome::Chromosome;
use crate::makespan::arrival_sorted;
use crate::permutation::{is_permutation, lemma_permutation_covers};
use crate::random::draw_below;
use crate::schedule::{arrival_order, lemma_arrival_order};
use rand::rngs::StdRng;
use vstd::prelude::*;

verus! {

/// The measures of how far two job orders are apart.
#[derive(Clone, Copy, Debug)]
pub enum DTYPE {
    ExactMatch,
    DeviationDistance,
}

/// The number of places below `k` at which `a` and `b` hold the same job.
pub open spec fn agreements(a: Seq<u32>, b: Seq<u32>, k: nat) -> nat
    decreases k,
{
    if k == 0 {
        0
    } else {
        agreements(a, b, (k - 1) as nat) + if a[k - 1] == b[k - 1] {
            1nat
        } else {
            0nat
        }
    }
}

/// The place of `job` in `s`.
pub open spec fn place_of(s: Seq<u32>, job: u32) -> int {
    s.index_of(job)
}

/// How far two places are apart.
pub open spec fn apart(a: int, b: int) -> nat {
    if a >= b {
        (a - b) as nat
    } else {
        (b - a) as nat
    }
}

/// The sum, over the jobs below `k`, of how far the places of the job in
/// `a` and in `b` are apart.
pub open spec fn deviation(a: Seq<u32>, b: Seq<u32>, k: nat) -> nat
    decreases k,
{
    if k == 0 {
        0
    } else {
        deviation(a, b, (k - 1) as nat) + apart(
            place_of(a, (k - 1) as u32),
            place_of(b, (k - 1) as u32),
        )
    }
}

/// Two chromosomes whose distance can be taken: permutations of the same
/// jobs, few enough for the distance to fit its type.
pub open spec fn comparable(c1: Chromosome, c2: Chromosome) -> bool {
    &&& is_permutation(c1.jobs@, c1.jobs@.len())
    &&& is_permutation(c2.jobs@, c1.jobs@.len())
    &&& c1.jobs@.len() * c1.jobs@.len() <= i32::MAX
}

/// A measure of how far two job orders are apart.
pub trait Distance {
    /// The distance between `c1` and `c2` can be taken.
    spec fn accepts(c1: Chromosome, c2: Chromosome) -> bool;

    /// The distance between `c1` and `c2`.
    fn distance(c1: &Chromosome, c2: &Chromosome) -> (r: i32)
        requires
            Self::accepts(*c1, *c2),
        ensures
            r >= 0,
    ;
}

/// The length of the shorter of two sequences.
pub open spec fn shorter(a: Seq<u32>, b: Seq<u32>) -> nat {
    if a.len() <= b.len() {
        a.len()
    } else {
        b.len()
    }
}

/// Counts the places at which two orders hold the same job.
pub struct ExactMatch;

/// Adds up how far each job has moved from one order to the other.
pub struct DeviationDistance;

proof fn lemma_small(n: int)
    requires
        0 <= n,
        n * n <= i32::MAX,
    ensures
        n <= i32::MAX,
        n <= u32::MAX,
{
    assert(n <= n * n || n == 0) by (nonlinear_arith)
        requires
            0 <= n,
    ;
}

impl Distance for ExactMatch {
    /// The places that both orders have are few enough to be counted.
    open spec fn accepts(c1: Chromosome, c2: Chromosome) -> bool {
        shorter(c1.jobs@, c2.jobs@) <= i32::MAX
    }

    /// The number of places at which `c1` and `c2` hold the same job.
    fn distance(c1: &Chromosome, c2: &Chromosome) -> (r: i32)
        ensures
            r == agreements(c1.jobs@, c2.jobs@, shorter(c1.jobs@, c2.jobs@)),
    {
        let n: usize = if c1.jobs.len() <= c2.jobs.len() {
            c1.jobs.len()
        } else {
            c2.jobs.len()
        };
        let mut count: i32 = 0;
        let mut i: usize = 0;
        while i < n
            invariant
                i <= n,
                n <= c1.jobs.len(),
                n <= c2.jobs.len(),
                n <= i32::MAX,
                count == agreements(c1.jobs@, c2.jobs@, i as nat),
                count <= i,
            decreases n - i,
        {
            if c1.jobs[i] == c2.jobs[i] {
                count += 1;
            }
            i += 1;
        }
        count
    }
}

/// For every job of the permutation `jobs` the place at which it stands.
fn places(jobs: &Vec<u32>) -> (r: Vec<usize>)
    requires
        is_permutation(jobs@, jobs@.len()),
        jobs.len() <= u32::MAX,
    ensures
        r.len() == jobs.len(),
        forall|job: u32| job < jobs.len() ==> #[trigger] r@[job as int] == place_of(jobs@, job),
        forall|k: int| 0 <= k < r.len() ==> #[trigger] r@[k] < jobs.len(),
{
    let n: usize = jobs.len();
    let mut idx: Vec<usize> = Vec::with_capacity(n);
    let mut k: usize = 0;
    while k < n
        invariant
            k <= n,
            idx.len() == k,
            forall|j: int| 0 <= j < k ==> #[trigger] idx@[j] == 0,
        decreases n - k,
    {
        idx.push(0);
        k += 1;
    }
    let mut i: usize = 0;
    while i < n
        invariant
            i <= n,
            n == jobs.len(),
            idx.len() == n,
            is_permutation(jobs@, jobs@.len()),
            forall|a: int| 0 <= a < i ==> #[trigger] idx@[jobs@[a] as int] == a,
            forall|k: int| 0 <= k < n ==> #[trigger] idx@[k] < n,
        decreases n - i,
    {
        let job: usize = jobs[i] as usize;
        let ghost before = idx@;
        idx[job] = i;
        proof {
            assert forall|a: int| 0 <= a < i + 1 implies #[trigger] idx@[jobs@[a] as int] == a by {
                if a < i {
                    assert(jobs@[a] != jobs@[i as int]);
                    assert(before[jobs@[a] as int] == a);
                }
            }
        }
        i += 1;
    }
    proof {
        lemma_permutation_covers(jobs@, n as nat);
        assert forall|job: u32| job < n implies #[trigger] idx@[job as int] == place_of(
            jobs@,
            job,
        ) by {
            assert(jobs@.contains(job));
            let a = choose|a: int| 0 <= a < jobs@.len() && jobs@[a] == job;
            let p = place_of(jobs@, job);
            assert(0 <= p < jobs@.len() && jobs@[p] == job);
            assert(idx@[jobs@[a] as int] == a);
        }
    }
    idx
}

impl Distance for DeviationDistance {
    /// The orders are permutations of the same jobs, few enough for the sum
    /// to fit.
    open spec fn accepts(c1: Chromosome, c2: Chromosome) -> bool {
        comparable(c1, c2)
    }

    /// The sum over all jobs of how far the job's places in `c1` and in `c2`
    /// are apart.
    fn distance(c1: &Chromosome, c2: &Chromosome) -> (r: i32)
        ensures
            r == deviation(c1.jobs@, c2.jobs@, c1.jobs@.len()),
    {
        let n: usize = c1.jobs.len();
        proof {
            lemma_small(n as int);
        }
        let c1_idx = places(&c1.jobs);
        let c2_idx = places(&c2.jobs);
        let mut sum: i32 = 0;
        let mut job: usize = 0;
        while job < n
            invariant
                job <= n,
                n == c1.jobs.len(),
                n == c2.jobs.len(),
                n * n <= i32::MAX,
                n <= u32::MAX,
                c1_idx.len() == n,
                c2_idx.len() == n,
                forall|j: u32|
                    j < n ==> #[trigger] c1_idx@[j as int] == place_of(c1.jobs@, j),
                forall|j: u32|
                    j < n ==> #[trigger] c2_idx@[j as int] == place_of(c2.jobs@, j),
                forall|k: int| 0 <= k < n ==> #[trigger] c1_idx@[k] < n,
                forall|k: int| 0 <= k < n ==> #[trigger] c2_idx@[k] < n,
                sum == deviation(c1.jobs@, c2.jobs@, job as nat),
                sum <= job * n,
            decreases n - job,
        {
            let a: usize = c1_idx[job];
            let b: usize = c2_idx[job];
            let d: usize = if a >= b {
                a - b
            } else {
                b - a
            };
            proof {
                assert(c1_idx@[(job as u32) as int] == place_of(c1.jobs@, job as u32));
                assert(c2_idx@[(job as u32) as int] == place_of(c2.jobs@, job as u32));
                assert((job + 1) * n <= n * n) by (nonlinear_arith)
                    requires
                        job + 1 <= n,
                ;
                assert((job + 1) * n == job * n + n) by (nonlinear_arith);
            }
            sum = sum + d as i32;
            job += 1;
        }
        sum
    }
}

/// The distance between `c1` and `c2` in the measure `dtype`.
pub fn distance_by(dtype: DTYPE, c1: &Chromosome, c2: &Chromosome) -> (r: i32)
    requires
        comparable(*c1, *c2),
    ensures
        r == measured(dtype, c1.jobs@, c2.jobs@),
        r >= 0,
{
    proof {
        lemma_small(c1.jobs@.len() as int);
    }
    match dtype {
        DTYPE::ExactMatch => ExactMatch::distance(c1, c2),
        DTYPE::DeviationDistance => DeviationDistance::distance(c1, c2),
    }
}

/// The distance between two orders in the measure `dtype`.
pub open spec fn measured(dtype: DTYPE, a: Seq<u32>, b: Seq<u32>) -> int {
    match dtype {
        DTYPE::ExactMatch => agreements(a, b, a.len()) as int,
        DTYPE::DeviationDistance => deviation(a, b, a.len()) as int,
    }
}

/// The winner of a duel once the coin for a draw is thrown: the one with the
/// lower makespan, and on equal makespans the child if `child_on_draw` says
/// so.
pub fn settle_duel(parent: &Chromosome, child: &Chromosome, child_on_draw: bool) -> (r:
    Chromosome)
    requires
        parent.makespan.is_some(),
        child.makespan.is_some(),
    ensures
        r@ == if parent.makespan.unwrap() < child.makespan.unwrap() {
            parent@
        } else if child.makespan.unwrap() < parent.makespan.unwrap() {
            child@
        } else if child_on_draw {
            child@
        } else {
            parent@
        },
{
    let p: u32 = parent.makespan.unwrap();
    let c: u32 = child.makespan.unwrap();
    if p < c {
        parent.clone()
    } else if c < p {
        child.clone()
    } else if child_on_draw {
        child.clone()
    } else {
        parent.clone()
    }
}

/// The duel between a parent and a child: the one with the lower makespan
/// wins, and on equal makespans a coin decides.
pub fn find_winner(parent: &Chromosome, child: &Chromosome, rng: &mut StdRng) -> (r: Chromosome)
    requires
        parent.makespan.is_some(),
        child.makespan.is_some(),
    ensures
        parent.makespan.unwrap() < child.makespan.unwrap() ==> r@ == parent@,
        child.makespan.unwrap() < parent.makespan.unwrap() ==> r@ == child@,
        r@ == parent@ || r@ == child@,
{
    let child_on_draw: bool = if parent.makespan.unwrap() == child.makespan.unwrap() {
        draw_below(rng, 2) == 0
    } else {
        false
    };
    settle_duel(parent, child, child_on_draw)
}

/// The first parent duels with the first child and the second with the
/// second, rather than crosswise: that pairing has the lower total distance.
pub open spec fn paired_straight(
    dtype: DTYPE,
    p0: Seq<u32>,
    p1: Seq<u32>,
    c0: Seq<u32>,
    c1: Seq<u32>,
) -> bool {
    measured(dtype, p0, c0) + measured(dtype, p1, c1) < measured(dtype, p0, c1) + measured(
        dtype,
        p1,
        c0,
    )
}

/// `f0` and `f1` are what the duels between the parents `p0` and `p1` and
/// the children `c0` and `c1` can give: each parent duels with the child it
/// is paired with, straight or crosswise.
pub open spec fn survived(
    dtype: DTYPE,
    p0: Chromosome,
    p1: Chromosome,
    c0: Chromosome,
    c1: Chromosome,
    f0: Chromosome,
    f1: Chromosome,
) -> bool {
    if paired_straight(dtype, p0.jobs@, p1.jobs@, c0.jobs@, c1.jobs@) {
        duel_won(p0, c0, f0) && duel_won(p1, c1, f1)
    } else {
        duel_won(p0, c1, f0) && duel_won(p1, c0, f1)
    }
}

/// Copies of parents and of winners stand for them in a duel.
pub proof fn lemma_survived_copies(
    dtype: DTYPE,
    p0: Chromosome,
    p1: Chromosome,
    c0: Chromosome,
    c1: Chromosome,
    f0: Chromosome,
    f1: Chromosome,
    q0: Chromosome,
    q1: Chromosome,
    g0: Chromosome,
    g1: Chromosome,
)
    requires
        survived(dtype, p0, p1, c0, c1, f0, f1),
        q0@ == p0@,
        q1@ == p1@,
        g0@ == f0@,
        g1@ == f1@,
    ensures
        survived(dtype, q0, q1, c0, c1, g0, g1),
{
}

/// The winner of a duel that a lot has decided: the child if `child_wins`,
/// else the parent. This is the duel of probabilistic crowding, in which
/// the caller draws the lot with the chances it has worked out.
pub fn settle_by_lot(parent: &Chromosome, child: &Chromosome, child_wins: bool) -> (r: Chromosome)
    ensures
        r@ == if child_wins {
            child@
        } else {
            parent@
        },
{
    if child_wins {
        child.clone()
    } else {
        parent.clone()
    }
}

/// Tells whether the first parent duels with the first child and the
/// second with the second, rather than crosswise.
pub fn pairs_straight(children: &[Chromosome], parents: &[Chromosome], dtype: DTYPE) -> (r: bool)
    requires
        children.len() >= 2,
        parents.len() >= 2,
        forall|i: int, j: int|
            0 <= i < 2 && 0 <= j < 2 ==> comparable(#[trigger] parents@[i], #[trigger] children@[j]),
    ensures
        r == paired_straight(
            dtype,
            parents@[0].jobs@,
            parents@[1].jobs@,
            children@[0].jobs@,
            children@[1].jobs@,
        ),
{
    let d00 = distance_by(dtype, &parents[0], &children[0]);
    let d11 = distance_by(dtype, &parents[1], &children[1]);
    let d01 = distance_by(dtype, &parents[0], &children[1]);
    let d10 = distance_by(dtype, &parents[1], &children[0]);
    assert(d00 as int + d11 as int <= 2 * i32::MAX);
    (d00 as i64) + (d11 as i64) < (d01 as i64) + (d10 as i64)
}

/// `f0` and `f1` are the winners of the duels between the parents `p0` and
/// `p1` and the children `c0` and `c1` that lots have decided: each parent
/// duels with the child it is paired with, straight or crosswise; the
/// child wins the duel with the first parent if `first_child_wins`, and
/// the duel with the second if `second_child_wins`.
pub open spec fn survived_by_lot(
    dtype: DTYPE,
    p0: Chromosome,
    p1: Chromosome,
    c0: Chromosome,
    c1: Chromosome,
    first_child_wins: bool,
    second_child_wins: bool,
    f0: Chromosome,
    f1: Chromosome,
) -> bool {
    let straight = paired_straight(dtype, p0.jobs@, p1.jobs@, c0.jobs@, c1.jobs@);
    let rival0 = if straight {
        c0
    } else {
        c1
    };
    let rival1 = if straight {
        c1
    } else {
        c0
    };
    &&& f0@ == if first_child_wins {
        rival0@
    } else {
        p0@
    }
    &&& f1@ == if second_child_wins {
        rival1@
    } else {
        p1@
    }
}

/// Chooses two survivors among two parents and their two children by
/// duels that lots have decided.
pub fn survivors_by_lot(
    children: &[Chromosome],
    parents: &[Chromosome],
    dtype: DTYPE,
    first_child_wins: bool,
    second_child_wins: bool,
) -> (r: [Chromosome; 2])
    requires
        children.len() >= 2,
        parents.len() >= 2,
        forall|i: int, j: int|
            0 <= i < 2 && 0 <= j < 2 ==> comparable(#[trigger] parents@[i], #[trigger] children@[j]),
    ensures
        survived_by_lot(
            dtype,
            parents@[0],
            parents@[1],
            children@[0],
            children@[1],
            first_child_wins,
            second_child_wins,
            r@[0],
            r@[1],
        ),
{
    if pairs_straight(children, parents, dtype) {
        let p1 = settle_by_lot(&parents[0], &children[0], first_child_wins);
        let p2 = settle_by_lot(&parents[1], &children[1], second_child_wins);
        [p1, p2]
    } else {
        let p1 = settle_by_lot(&parents[0], &children[1], first_child_wins);
        let p2 = settle_by_lot(&parents[1], &children[0], second_child_wins);
        [p1, p2]
    }
}

/// Chooses two survivors among two parents and their two children: each
/// parent duels with the child it is paired with.
pub fn survivor_selection(
    children: &[Chromosome],
    parents: &[Chromosome],
    dtype: DTYPE,
    rng: &mut StdRng,
) -> (r: [Chromosome; 2])
    requires
        children.len() >= 2,
        parents.len() >= 2,
        forall|i: int| 0 <= i < 2 ==> (#[trigger] children@[i]).makespan.is_some(),
        forall|i: int| 0 <= i < 2 ==> (#[trigger] parents@[i]).makespan.is_some(),
        forall|i: int, j: int|
            0 <= i < 2 && 0 <= j < 2 ==> comparable(#[trigger] parents@[i], #[trigger] children@[j]),
    ensures
        ({
            let straight = paired_straight(
                dtype,
                parents@[0].jobs@,
                parents@[1].jobs@,
                children@[0].jobs@,
                children@[1].jobs@,
            );
            let rival0 = if straight {
                children@[0]
            } else {
                children@[1]
            };
            let rival1 = if straight {
                children@[1]
            } else {
                children@[0]
            };
            &&& duel_won(parents@[0], rival0, r@[0])
            &&& duel_won(parents@[1], rival1, r@[1])
        }),
        survived(dtype, parents@[0], parents@[1], children@[0], children@[1], r@[0], r@[1]),
{
    if pairs_straight(children, parents, dtype) {
        let p1 = find_winner(&parents[0], &children[0], rng);
        let p2 = find_winner(&parents[1], &children[1], rng);
        [p1, p2]
    } else {
        let p1 = find_winner(&parents[0], &children[1], rng);
        let p2 = find_winner(&parents[1], &children[0], rng);
        [p1, p2]
    }
}

/// `winner` is what a duel between `parent` and `child` can give.
pub open spec fn duel_won(parent: Chromosome, child: Chromosome, winner: Chromosome) -> bool {
    &&& parent.makespan.unwrap() < child.makespan.unwrap() ==> winner@ == parent@
    &&& child.makespan.unwrap() < parent.makespan.unwrap() ==> winner@ == child@
    &&& winner@ == parent@ || winner@ == child@
}

/// For each member of `pop` its place and its distance from `c`.
pub open spec fn distances_from(dtype: DTYPE, c: Chromosome, pop: Seq<Chromosome>) -> Seq<
    (u32, u32),
> {
    Seq::new(pop.len(), |i: int| (i as u32, measured(dtype, c.jobs@, pop[i].jobs@) as u32))
}

/// The `k` members of `pop` nearest to `c`, the nearest first, equally near
/// ones in the order in which they stand; each with its place and distance.
pub open spec fn nearest(dtype: DTYPE, c: Chromosome, pop: Seq<Chromosome>, k: int) -> Seq<
    (u32, u32),
> {
    arrival_order(distances_from(dtype, c, pop)).take(k)
}

/// Among the members of `pop` listed in `near`, the one at `near[q]` has the
/// highest makespan, and none behind it has one as high.
pub open spec fn is_weakest(near: Seq<(u32, u32)>, pop: Seq<Chromosome>, q: int) -> bool {
    &&& 0 <= q < near.len()
    &&& forall|j: int|
        0 <= j < near.len() ==> pop[(#[trigger] near[j]).0 as int].makespan.unwrap()
            <= pop[near[q].0 as int].makespan.unwrap()
    &&& forall|j: int|
        q < j < near.len() ==> pop[(#[trigger] near[j]).0 as int].makespan.unwrap()
            < pop[near[q].0 as int].makespan.unwrap()
}

/// The place of the rival of `c` in `pop`: of the `k` members nearest to
/// `c` (of equally near ones those that stand first) the one with the
/// highest makespan, and of several such the one that is farthest.
pub fn nearest_rival(c: &Chromosome, pop: &[Chromosome], k: usize, dtype: DTYPE) -> (r: usize)
    requires
        1 <= k <= pop.len(),
        pop.len() <= u32::MAX,
        forall|i: int| 0 <= i < pop.len() ==> (#[trigger] pop@[i]).makespan.is_some(),
        forall|i: int| 0 <= i < pop.len() ==> comparable(*c, #[trigger] pop@[i]),
    ensures
        r < pop.len(),
        exists|q: int|
            {
                &&& #[trigger] is_weakest(nearest(dtype, *c, pop@, k as int), pop@, q)
                &&& r == nearest(dtype, *c, pop@, k as int)[q].0
            },
{
    let mut distances: Vec<(u32, u32)> = Vec::with_capacity(pop.len());
    let mut i: usize = 0;
    while i < pop.len()
        invariant
            i <= pop.len(),
            pop.len() <= u32::MAX,
            forall|i: int| 0 <= i < pop.len() ==> comparable(*c, #[trigger] pop@[i]),
            distances@ == distances_from(dtype, *c, pop@).take(i as int),
        decreases pop.len() - i,
    {
        let d = distance_by(dtype, c, &pop[i]);
        distances.push((i as u32, d as u32));
        i += 1;
    }
    assert(distances@ == distances_from(dtype, *c, pop@));
    let ranked = arrival_sorted(&distances);
    let ghost near = ranked@.take(k as int);
    proof {
        broadcast use vstd::seq_lib::to_multiset_contains;

        lemma_arrival_order(distances@);
        assert forall|j: int| 0 <= j < ranked@.len() implies (#[trigger] ranked@[j]).0
            < pop.len() by {
            assert(ranked@.contains(ranked@[j]));
            assert(distances@.to_multiset().count(ranked@[j]) > 0);
            assert(distances@.contains(ranked@[j]));
            let a = choose|a: int| 0 <= a < distances@.len() && distances@[a] == ranked@[j];
            assert(distances@[a].0 == a);
        }
    }
    let mut least_fit: usize = ranked[0].0 as usize;
    let ghost mut q: int = 0;
    let mut j: usize = 1;
    while j < k
        invariant
            1 <= j <= k <= pop.len(),
            ranked@.len() == pop.len(),
            near == ranked@.take(k as int),
            forall|j: int| 0 <= j < ranked@.len() ==> (#[trigger] ranked@[j]).0 < pop.len(),
            forall|i: int| 0 <= i < pop.len() ==> (#[trigger] pop@[i]).makespan.is_some(),
            0 <= q < j,
            least_fit == near[q].0,
            least_fit < pop.len(),
            is_weakest(near.take(j as int), pop@, q),
        decreases k - j,
    {
        let candidate: usize = ranked[j].0 as usize;
        let ghost seen = near.take(j as int);
        let ghost next = near.take(j + 1);
        assert(near[j as int] == ranked@[j as int]);
        if pop[candidate].makespan.unwrap() >= pop[least_fit].makespan.unwrap() {
            least_fit = candidate;
            proof {
                assert forall|a: int| 0 <= a < next.len() implies pop@[(
                #[trigger] next[a]).0 as int].makespan.unwrap()
                    <= pop@[next[j as int].0 as int].makespan.unwrap() by {
                    if a < j {
                        assert(seen[a] == next[a]);
                        assert(seen[q] == next[q]);
                    }
                }
                q = j as int;
            }
        } else {
            proof {
                assert forall|a: int| 0 <= a < next.len() implies pop@[(
                #[trigger] next[a]).0 as int].makespan.unwrap()
                    <= pop@[next[q].0 as int].makespan.unwrap() by {
                    assert(seen[q] == next[q]);
                    if a < j {
                        assert(seen[a] == next[a]);
                    }
                }
                assert forall|a: int| q < a < next.len() implies pop@[(
                #[trigger] next[a]).0 as int].makespan.unwrap()
                    < pop@[next[q].0 as int].makespan.unwrap() by {
                    assert(seen[q] == next[q]);
                    if a < j {
                        assert(seen[a] == next[a]);
                    }
                }
            }
        }
        j += 1;
    }
    assert(near.take(k as int) == near);
    assert(is_weakest(nearest(dtype, *c, pop@, k as int), pop@, q));
    least_fit
}

/// Decides whether `c` takes the place of a member of `pop`: of the `k`
/// members nearest to `c` (of equally near ones those that stand first) the
/// one with the highest makespan is its rival. Returns the rival's place if
/// `c` is not worse than it, else `None`.
pub fn k_nearest_replacement(
    c: &Chromosome,
    pop: &[Chromosome],
    k: usize,
    dtype: DTYPE,
    rng: &mut StdRng,
) -> (r: Option<usize>)
    requires
        1 <= k <= pop.len(),
        pop.len() <= u32::MAX,
        c.makespan.is_some(),
        forall|i: int| 0 <= i < pop.len() ==> (#[trigger] pop@[i]).makespan.is_some(),
        forall|i: int| 0 <= i < pop.len() ==> comparable(*c, #[trigger] pop@[i]),
    ensures
        r matches Some(i) ==> i < pop.len() && c.makespan.unwrap() <= pop@[i as int].makespan.unwrap(),
        exists|q: int|
            {
                &&& #[trigger] is_weakest(nearest(dtype, *c, pop@, k as int), pop@, q)
                &&& r == if c.makespan.unwrap() <= pop@[nearest(
                    dtype,
                    *c,
                    pop@,
                    k as int,
                )[q].0 as int].makespan.unwrap() {
                    Some(nearest(dtype, *c, pop@, k as int)[q].0 as usize)
                } else {
                    None
                }
            },
{
    let least_fit = nearest_rival(c, pop, k, dtype);
    let winner = find_winner(c, &pop[least_fit], rng);
    if winner.makespan.unwrap() == c.makespan.unwrap() {
        Some(least_fit)
    } else {
        None
    }
}

} // verus!
