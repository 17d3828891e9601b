//! Block exchange: each child is one parent without the jobs of a block of
//! the other parent, with that block put in by best insertion.

use crate::best_insertion::{block_costs, find_best_insertion, placed};
use crate::chromosome::Chromosome;
use crate::crossover::order::{append_left_over, left_over};
use crate::crossover::Crossover;
use crate::makespan::Makespan;
use crate::permutation::{is_partial_permutation, is_permutation, lemma_permutation_covers};
use crate::picking::{
    lemma_picked_distinct, lemma_picked_split, lemma_same_jobs_same_length, picked,
};
use crate::random::draw_below;
use rand::rngs::StdRng;
use vstd::prelude::*;

verus! {

/// Exchange of a block, put in by best insertion.
pub struct BCBX;

/// Copies the jobs of `p` at the places from `lo` up to `hi`.
pub fn copy_range(p: &Vec<u32>, lo: usize, hi: usize) -> (r: Vec<u32>)
    requires
        lo <= hi <= p.len(),
    ensures
        r@ == p@.subrange(lo as int, hi as int),
{
    let mut r: Vec<u32> = Vec::with_capacity(hi - lo);
    let mut i: usize = lo;
    while i < hi
        invariant
            lo <= i <= hi <= p.len(),
            r@ == p@.subrange(lo as int, i as int),
        decreases hi - i,
    {
        r.push(p[i]);
        i += 1;
        assert(r@ =~= p@.subrange(lo as int, i as int));
    }
    r
}

/// The size of the blocks that are exchanged: `k` if it is given, else a
/// tenth of the `n` jobs.
pub open spec fn block_size(k: Option<usize>, n: nat) -> int {
    if k.is_some() {
        k.unwrap() as int
    } else {
        (n / 10) as int
    }
}

/// `c` is `own` without the jobs of `block`, with `block` put in at place
/// `at`.
pub open spec fn is_block_child(c: Seq<u32>, own: Seq<u32>, block: Seq<u32>, at: int) -> bool {
    &&& 0 <= at <= left_over(own, block).len()
    &&& c == placed(left_over(own, block), block, at)
}

/// A permutation without the jobs of a block of the other permutation, with
/// that block put in anywhere, is a permutation again.
pub proof fn lemma_block_child(own: Seq<u32>, other: Seq<u32>, lo: int, hi: int, at: int, n: nat)
    requires
        is_permutation(own, n),
        is_permutation(other, n),
        n <= u32::MAX,
        0 <= lo <= hi <= n,
        0 <= at <= n - (hi - lo),
    ensures
        left_over(own, other.subrange(lo, hi)).len() == n - (hi - lo),
        is_partial_permutation(left_over(own, other.subrange(lo, hi)), n),
        is_permutation(placed(left_over(own, other.subrange(lo, hi)), other.subrange(lo, hi), at), n),
{
    let block = other.subrange(lo, hi);
    let kept = |v: u32| !block.contains(v);
    let dropped = |v: u32| block.contains(v);
    let rest = picked(own, kept, n);
    let gone = picked(own, dropped, n);
    assert(rest == left_over(own, block));
    lemma_picked_split(own, kept, dropped, n);
    lemma_picked_distinct(own, kept, n, n);
    lemma_picked_distinct(own, dropped, n, n);
    lemma_permutation_covers(own, n);
    assert(is_partial_permutation(block, n)) by {
        assert forall|i: int| 0 <= i < block.len() implies #[trigger] block[i] < n by {
            assert(block[i] == other[lo + i]);
        }
        assert forall|i: int, j: int|
            0 <= i < block.len() && 0 <= j < block.len() && i != j implies block[i]
            != block[j] by {
            assert(block[i] == other[lo + i] && block[j] == other[lo + j]);
        }
    }
    assert forall|v: u32| gone.contains(v) <==> block.contains(v) by {
        if block.contains(v) {
            let i = choose|i: int| 0 <= i < block.len() && block[i] == v;
            assert(block[i] < n);
            assert(own.contains(v));
            let j = choose|j: int| 0 <= j < own.len() && own[j] == v;
            assert(0 <= j < n && own[j] == v);
        }
    }
    lemma_same_jobs_same_length(gone, block, n);
    let c = placed(rest, block, at);
    assert forall|i: int| 0 <= i < c.len() implies #[trigger] c[i] < n by {
        if i < at {
            assert(c[i] == rest[i]);
        } else if i < at + block.len() {
            assert(c[i] == block[i - at]);
        } else {
            assert(c[i] == rest[i - block.len()]);
        }
    }
    assert forall|i: int, j: int| 0 <= i < c.len() && 0 <= j < c.len() && i != j implies c[i]
        != c[j] by {
        let in_block_i = at <= i < at + block.len();
        let in_block_j = at <= j < at + block.len();
        let i0 = if i < at {
            i
        } else if in_block_i {
            i - at
        } else {
            i - block.len()
        };
        let j0 = if j < at {
            j
        } else if in_block_j {
            j - at
        } else {
            j - block.len()
        };
        if in_block_i && in_block_j {
            assert(c[i] == block[i0] && c[j] == block[j0]);
        } else if in_block_i {
            assert(c[i] == block[i0] && c[j] == rest[j0]);
            assert(block.contains(block[i0]));
            assert(rest.contains(rest[j0]));
        } else if in_block_j {
            assert(c[i] == rest[i0] && c[j] == block[j0]);
            assert(block.contains(block[j0]));
            assert(rest.contains(rest[i0]));
        } else {
            assert(c[i] == rest[i0] && c[j] == rest[j0]);
        }
    }
}

/// `c1` and `c2` are the children of the block exchange of `p1` and `p2`:
/// each is its own parent without the jobs of a block of the other parent,
/// with that block put in; the blocks have `k` jobs, or a tenth of the jobs
/// if no `k` is given.
pub open spec fn is_block_pair(
    k: Option<usize>,
    p1: Seq<u32>,
    p2: Seq<u32>,
    c1: Seq<u32>,
    c2: Seq<u32>,
) -> bool {
    exists|b1: int, b2: int, at1: int, at2: int|
        {
            &&& 0 <= b1 < p1.len() - block_size(k, p1.len())
            &&& 0 <= b2 < p1.len() - block_size(k, p1.len())
            &&& #[trigger] is_block_child(
                c1,
                p1,
                p2.subrange(b2, b2 + block_size(k, p1.len())),
                at1,
            )
            &&& #[trigger] is_block_child(
                c2,
                p2,
                p1.subrange(b1, b1 + block_size(k, p1.len())),
                at2,
            )
        }
}

impl Crossover for BCBX {
    /// The block holds a job and leaves a job outside: a block size that
    /// is given lies between 1 and the number of jobs, and where none is
    /// given there are at least ten jobs.
    open spec fn accepts(k: Option<usize>, jobs: nat) -> bool {
        1 <= block_size(k, jobs) < jobs
    }

    /// Takes a block of `k` jobs (a tenth of the jobs if no `k` is given) at
    /// a random place of each parent. Each child is one parent without the
    /// jobs of the other parent's block, with that block put in by best
    /// insertion. The children come evaluated.
    fn apply(
        p1: &Chromosome,
        p2: &Chromosome,
        k: Option<usize>,
        makespan: &mut Makespan,
        rng: &mut StdRng,
    ) -> (r: (Chromosome, Chromosome))
        ensures
            is_block_pair(k, p1.jobs@, p2.jobs@, r.0.jobs@, r.1.jobs@),
            r.0.evaluated(old(makespan).instance@),
            r.1.evaluated(old(makespan).instance@),
    {
        let ghost inst = makespan.instance@;
        let n_jobs: usize = p1.jobs.len();
        let size: usize = match k {
            Some(given) => given,
            None => n_jobs / 10,
        };
        let b1 = draw_below(rng, n_jobs - size);
        let b2 = draw_below(rng, n_jobs - size);
        let block1 = copy_range(&p1.jobs, b1, b1 + size);
        let block2 = copy_range(&p2.jobs, b2, b2 + size);
        let mut c1: Vec<u32> = Vec::new();
        let mut c2: Vec<u32> = Vec::new();
        append_left_over(&p1.jobs, &block2, &mut c1);
        append_left_over(&p2.jobs, &block1, &mut c2);
        let ghost rest1 = c1@;
        let ghost rest2 = c2@;
        proof {
            assert(rest1 =~= left_over(p1.jobs@, block2@));
            assert(rest2 =~= left_over(p2.jobs@, block1@));
            lemma_block_child(p1.jobs@, p2.jobs@, b2 as int, b2 + size, 0, inst.jobs);
            lemma_block_child(p2.jobs@, p1.jobs@, b1 as int, b1 + size, 0, inst.jobs);
            assert forall|i: int| 0 <= i < block1@.len() implies #[trigger] block1@[i]
                < inst.jobs by {
                assert(block1@[i] == p1.jobs@[b1 + i]);
            }
            assert forall|i: int| 0 <= i < block2@.len() implies #[trigger] block2@[i]
                < inst.jobs by {
                assert(block2@[i] == p2.jobs@[b2 + i]);
            }
        }
        let (c1, m1) = find_best_insertion(c1, block2.as_slice(), makespan, true, rng);
        let (c2, m2) = find_best_insertion(c2, block1.as_slice(), makespan, true, rng);
        let ghost at1 = choose|p: int|
            0 <= p <= rest1.len() && c1@ == placed(rest1, block2@, p) && m1
                == #[trigger] block_costs(inst, rest1, block2@)[p];
        let ghost at2 = choose|p: int|
            0 <= p <= rest2.len() && c2@ == placed(rest2, block1@, p) && m2
                == #[trigger] block_costs(inst, rest2, block1@)[p];
        proof {
            lemma_block_child(p1.jobs@, p2.jobs@, b2 as int, b2 + size, at1, inst.jobs);
            lemma_block_child(p2.jobs@, p1.jobs@, b1 as int, b1 + size, at2, inst.jobs);
        }
        let r = (Chromosome::new_with_makespan(c1, m1), Chromosome::new_with_makespan(c2, m2));
        proof {
            let len = p1.jobs@.len();
            assert(size == block_size(k, len));
            assert(is_block_child(
                r.0.jobs@,
                p1.jobs@,
                p2.jobs@.subrange(b2 as int, b2 + block_size(k, len)),
                at1,
            ));
            assert(is_block_child(
                r.1.jobs@,
                p2.jobs@,
                p1.jobs@.subrange(b1 as int, b1 + block_size(k, len)),
                at2,
            ));
            assert(is_block_pair(k, p1.jobs@, p2.jobs@, r.0.jobs@, r.1.jobs@));
        }
        r
    }
}

} // verus!
