//! Order crossover: each child keeps a segment of its own parent and the
//! places at which the parents agree, and takes its other jobs in the order
//! of the other parent.

use crate::chromosome::Chromosome;
use crate::crossover::Crossover;
use crate::crowding::place_of;
use crate::makespan::Makespan;
use crate::permutation::{holds, is_permutation, lemma_permutation_covers};
use crate::picking::{
    lemma_picked, lemma_picked_distinct, lemma_picked_split, lemma_same_jobs_same_length, picked,
    picked_places,
};
use crate::random::draw_below;
use rand::rngs::StdRng;
use vstd::prelude::*;

verus! {

/// Marks a place of a child that holds no job yet.
pub const HOLE: u32 = u32::MAX;

/// Order crossover with one cut.
pub struct SJ2OX;

/// Order crossover with two cuts.
pub struct SB2OX;

/// The parents hold the same job at place `i`.
pub open spec fn agree(p1: Seq<u32>, p2: Seq<u32>, i: int) -> bool {
    p1[i] == p2[i]
}

/// The parents hold the same job at place `i` and at a place next to it.
pub open spec fn in_block(p1: Seq<u32>, p2: Seq<u32>, i: int) -> bool {
    &&& agree(p1, p2, i)
    &&& (i != 0 && agree(p1, p2, i - 1)) || (i != p1.len() - 1 && agree(p1, p2, i + 1))
}

/// The number of holes of `guard` at the places from `lo` up to `hi`.
pub open spec fn holes_between(guard: Seq<u32>, lo: int, hi: int) -> nat
    decreases hi - lo,
{
    if hi <= lo {
        0
    } else {
        holes_between(guard, lo, hi - 1) + if guard[hi - 1] == HOLE {
            1nat
        } else {
            0nat
        }
    }
}

/// `c` with the jobs of `order` put, one after the other, at the places from
/// `k` on at which `guard` has a hole.
pub open spec fn filled(c: Seq<u32>, guard: Seq<u32>, k: int, order: Seq<u32>) -> Seq<u32> {
    Seq::new(
        c.len(),
        |i: int|
            if i >= k && guard[i] == HOLE {
                order[holes_between(guard, k, i) as int]
            } else {
                c[i]
            },
    )
}

/// The jobs of `p` that `c` does not hold, in their order in `p`.
pub open spec fn left_over(p: Seq<u32>, c: Seq<u32>) -> Seq<u32> {
    picked(p, |v: u32| !c.contains(v), p.len())
}

/// `c` with the parent's job at every place at which the parents agree; with
/// `adjacent`, only where they also agree at a place next to it.
pub open spec fn with_matches(
    c: Seq<u32>,
    p: Seq<u32>,
    p1: Seq<u32>,
    p2: Seq<u32>,
    adjacent: bool,
) -> Seq<u32> {
    Seq::new(
        c.len(),
        |i: int|
            if (adjacent && in_block(p1, p2, i)) || (!adjacent && agree(p1, p2, i)) {
                p[i]
            } else {
                c[i]
            },
    )
}

/// `c` with the parent's jobs at the places from `lo` up to `hi`.
pub open spec fn with_segment(c: Seq<u32>, p: Seq<u32>, lo: int, hi: int) -> Seq<u32> {
    Seq::new(
        c.len(),
        |i: int|
            if lo <= i < hi {
                p[i]
            } else {
                c[i]
            },
    )
}

/// Two children without jobs, as long as their parents.
pub fn generate_children(p1: &Chromosome, p2: &Chromosome) -> (r: (Vec<u32>, Vec<u32>))
    ensures
        r.0@ == Seq::new(p1.jobs@.len(), |i: int| HOLE),
        r.1@ == Seq::new(p2.jobs@.len(), |i: int| HOLE),
{
    (holes(p1.jobs.len()), holes(p2.jobs.len()))
}

/// A child of `n` places without jobs.
fn holes(n: usize) -> (r: Vec<u32>)
    ensures
        r@ == Seq::new(n as nat, |i: int| HOLE),
{
    let mut c: Vec<u32> = Vec::with_capacity(n);
    let mut i: usize = 0;
    while i < n
        invariant
            i <= n,
            c@ == Seq::new(i as nat, |i: int| HOLE),
        decreases n - i,
    {
        c.push(HOLE);
        i += 1;
        assert(c@ =~= Seq::new(i as nat, |i: int| HOLE));
    }
    c
}

/// Copies the jobs of `p` at the places from `lo` up to `hi` to `c`.
pub fn copy_segment(c: &mut Vec<u32>, p: &Vec<u32>, lo: usize, hi: usize)
    requires
        old(c).len() == p.len(),
        lo <= hi <= p.len(),
    ensures
        final(c)@ == with_segment(old(c)@, p@, lo as int, hi as int),
{
    let mut i: usize = lo;
    while i < hi
        invariant
            lo <= i <= hi <= p.len(),
            c.len() == p.len(),
            c@ == with_segment(old(c)@, p@, lo as int, i as int),
        decreases hi - i,
    {
        c[i] = p[i];
        i += 1;
        assert(c@ =~= with_segment(old(c)@, p@, lo as int, i as int));
    }
    assert(c@ =~= with_segment(old(c)@, p@, lo as int, hi as int));
}

/// Copies to the children the jobs at the places at which the parents
/// agree; with `adjacent`, only where they also agree at a place next to it.
pub fn copy_matches(
    p1: &Vec<u32>,
    p2: &Vec<u32>,
    c1: &mut Vec<u32>,
    c2: &mut Vec<u32>,
    adjacent: bool,
)
    requires
        p1.len() == p2.len(),
        old(c1).len() == p1.len(),
        old(c2).len() == p1.len(),
    ensures
        final(c1)@ == with_matches(old(c1)@, p1@, p1@, p2@, adjacent),
        final(c2)@ == with_matches(old(c2)@, p2@, p1@, p2@, adjacent),
{
    let n: usize = p1.len();
    let mut i: usize = 0;
    while i < n
        invariant
            i <= n,
            n == p1.len(),
            n == p2.len(),
            c1.len() == n,
            c2.len() == n,
            old(c1)@.len() == n,
            old(c2)@.len() == n,
            forall|j: int|
                0 <= j < n ==> #[trigger] c1@[j] == if j < i {
                    with_matches(old(c1)@, p1@, p1@, p2@, adjacent)[j]
                } else {
                    old(c1)@[j]
                },
            forall|j: int|
                0 <= j < n ==> #[trigger] c2@[j] == if j < i {
                    with_matches(old(c2)@, p2@, p1@, p2@, adjacent)[j]
                } else {
                    old(c2)@[j]
                },
        decreases n - i,
    {
        if p1[i] == p2[i] && (!adjacent || (i != 0 && p1[i - 1] == p2[i - 1]) || (i != n - 1
            && p1[i + 1] == p2[i + 1])) {
            c1[i] = p1[i];
            c2[i] = p2[i];
        }
        i += 1;
    }
    assert(c1@ =~= with_matches(old(c1)@, p1@, p1@, p2@, adjacent));
    assert(c2@ =~= with_matches(old(c2)@, p2@, p1@, p2@, adjacent));
}

/// Appends to `order` the jobs of `p` that `c` does not hold, in their
/// order in `p`.
pub fn append_left_over(p: &Vec<u32>, c: &Vec<u32>, order: &mut Vec<u32>)
    ensures
        final(order)@ == old(order)@ + left_over(p@, c@),
{
    let ghost pred = |v: u32| !c@.contains(v);
    let mut i: usize = 0;
    while i < p.len()
        invariant
            i <= p.len(),
            pred == |v: u32| !c@.contains(v),
            order@ == old(order)@ + picked(p@, pred, i as nat),
        decreases p.len() - i,
    {
        if !holds(c, p[i]) {
            order.push(p[i]);
        }
        i += 1;
        assert(order@ =~= old(order)@ + picked(p@, pred, i as nat));
    }
}

/// Copies to the children the jobs that stand in blocks, that is at
/// neighbouring places at which the parents agree, and appends to
/// `p1_order` the jobs of the first parent that the second child then lacks,
/// to `p2_order` those of the second parent that the first child lacks.
pub fn match_blocks(
    p1: &Chromosome,
    p2: &Chromosome,
    c1: &mut Vec<u32>,
    c2: &mut Vec<u32>,
    p1_order: &mut Vec<u32>,
    p2_order: &mut Vec<u32>,
)
    requires
        p1.jobs.len() == p2.jobs.len(),
        old(c1).len() == p1.jobs.len(),
        old(c2).len() == p1.jobs.len(),
    ensures
        final(c1)@ == with_matches(old(c1)@, p1.jobs@, p1.jobs@, p2.jobs@, true),
        final(c2)@ == with_matches(old(c2)@, p2.jobs@, p1.jobs@, p2.jobs@, true),
        final(p1_order)@ == old(p1_order)@ + left_over(p1.jobs@, final(c2)@),
        final(p2_order)@ == old(p2_order)@ + left_over(p2.jobs@, final(c1)@),
{
    copy_matches(&p1.jobs, &p2.jobs, c1, c2, true);
    append_left_over(&p1.jobs, c2, p1_order);
    append_left_over(&p2.jobs, c1, p2_order);
}

/// The holes counted up to a place are among those counted up to a later
/// one.
pub proof fn lemma_holes_grow(guard: Seq<u32>, lo: int, mid: int, hi: int)
    requires
        lo <= mid <= hi,
    ensures
        holes_between(guard, lo, mid) <= holes_between(guard, lo, hi),
        mid < hi && guard[mid] == HOLE ==> holes_between(guard, lo, mid) < holes_between(
            guard,
            lo,
            hi,
        ),
    decreases hi - mid,
{
    if mid < hi {
        lemma_holes_grow(guard, lo, mid, hi - 1);
        if mid == hi - 1 {
        } else {
            lemma_holes_grow(guard, lo, mid + 1, hi - 1);
        }
    }
}

/// Puts the jobs of `p2_order`, one after the other, into the holes of `c1`
/// from place `k` on, and those of `p1_order` at the same places into `c2`.
pub fn insert_remaining(
    k: usize,
    c1: &mut Vec<u32>,
    p2_order: Vec<u32>,
    c2: &mut Vec<u32>,
    p1_order: Vec<u32>,
)
    requires
        old(c1).len() == old(c2).len(),
        k <= old(c1).len(),
        holes_between(old(c1)@, k as int, old(c1).len() as int) <= p2_order.len(),
        holes_between(old(c1)@, k as int, old(c1).len() as int) <= p1_order.len(),
    ensures
        final(c1)@ == filled(old(c1)@, old(c1)@, k as int, p2_order@),
        final(c2)@ == filled(old(c2)@, old(c1)@, k as int, p1_order@),
{
    let n: usize = c1.len();
    let ghost guard = c1@;
    let mut next: usize = 0;
    let mut i: usize = k;
    while i < n
        invariant
            k <= i <= n,
            guard == old(c1)@,
            guard.len() == n,
            c1.len() == n,
            c2.len() == n,
            old(c2)@.len() == n,
            next == holes_between(guard, k as int, i as int),
            holes_between(guard, k as int, n as int) <= p2_order.len(),
            holes_between(guard, k as int, n as int) <= p1_order.len(),
            forall|j: int|
                0 <= j < n ==> #[trigger] c1@[j] == if j < i {
                    filled(guard, guard, k as int, p2_order@)[j]
                } else {
                    guard[j]
                },
            forall|j: int|
                0 <= j < n ==> #[trigger] c2@[j] == if j < i {
                    filled(old(c2)@, guard, k as int, p1_order@)[j]
                } else {
                    old(c2)@[j]
                },
        decreases n - i,
    {
        proof {
            lemma_holes_grow(guard, k as int, i as int, n as int);
        }
        if c1[i] == HOLE {
            c1[i] = p2_order[next];
            c2[i] = p1_order[next];
            next += 1;
        }
        i += 1;
    }
    assert(c1@ =~= filled(guard, guard, k as int, p2_order@));
    assert(c2@ =~= filled(old(c2)@, guard, k as int, p1_order@));
}

/// A child in the making: at every place a hole or the parent's job.
pub open spec fn is_template(t: Seq<u32>, p: Seq<u32>) -> bool {
    &&& t.len() == p.len()
    &&& forall|i: int| 0 <= i < t.len() ==> #[trigger] t[i] == HOLE || t[i] == p[i]
}

/// The child keeps its own parent's job at place `i`: the place lies in the
/// segment from `lo` up to `hi`, or the parents agree there (with
/// `adjacent`: there and at a place next to it).
pub open spec fn kept_place(
    p1: Seq<u32>,
    p2: Seq<u32>,
    lo: int,
    hi: int,
    adjacent: bool,
    i: int,
) -> bool {
    lo <= i < hi || (adjacent && in_block(p1, p2, i)) || (!adjacent && agree(p1, p2, i))
}

/// `c` is the child of the order crossover with the segment from `lo` up to
/// `hi`: a permutation that holds the jobs of its own parent at the kept
/// places, and the other jobs at the other places in the order in which the
/// other parent holds them.
pub open spec fn is_ox_child(
    c: Seq<u32>,
    own: Seq<u32>,
    other: Seq<u32>,
    lo: int,
    hi: int,
    adjacent: bool,
) -> bool {
    &&& is_permutation(c, own.len())
    &&& forall|i: int|
        0 <= i < c.len() && kept_place(own, other, lo, hi, adjacent, i) ==> #[trigger] c[i]
            == own[i]
    &&& forall|i: int, j: int|
        0 <= i < j < c.len() && !kept_place(own, other, lo, hi, adjacent, i) && !kept_place(
            own,
            other,
            lo,
            hi,
            adjacent,
            j,
        ) ==> place_of(other, #[trigger] c[i]) < place_of(other, #[trigger] c[j])
}

proof fn lemma_holes_picked(t: Seq<u32>, k: nat)
    requires
        k <= t.len(),
    ensures
        holes_between(t, 0, k as int) + picked(t, |v: u32| v != HOLE, k).len() == k,
    decreases k,
{
    if k > 0 {
        lemma_holes_picked(t, (k - 1) as nat);
    }
}

/// Holes at the same places are equally many.
pub proof fn lemma_same_holes(a: Seq<u32>, b: Seq<u32>, lo: int, hi: int)
    requires
        a.len() == b.len(),
        0 <= lo,
        hi <= a.len(),
        forall|i: int| 0 <= i < a.len() ==> (#[trigger] a[i] == HOLE <==> b[i] == HOLE),
    ensures
        holes_between(a, lo, hi) == holes_between(b, lo, hi),
    decreases hi - lo,
{
    if hi > lo {
        lemma_same_holes(a, b, lo, hi - 1);
        assert(a[hi - 1] == HOLE <==> b[hi - 1] == HOLE);
    }
}

/// Filling the holes of a template of one parent with the jobs that are
/// left over of the other parent gives a permutation, in which these jobs
/// stand in the other parent's order.
pub proof fn lemma_ox_child(p: Seq<u32>, q: Seq<u32>, t: Seq<u32>, n: nat)
    requires
        is_permutation(p, n),
        is_permutation(q, n),
        n <= u32::MAX,
        is_template(t, p),
    ensures
        left_over(q, t).len() == holes_between(t, 0, n as int),
        is_permutation(filled(t, t, 0, left_over(q, t)), n),
        forall|i: int|
            0 <= i < n && t[i] != HOLE ==> #[trigger] filled(t, t, 0, left_over(q, t))[i] == p[i],
        forall|i: int, j: int|
            0 <= i < j < n && t[i] == HOLE && t[j] == HOLE ==> place_of(
                q,
                #[trigger] filled(t, t, 0, left_over(q, t))[i],
            ) < place_of(q, #[trigger] filled(t, t, 0, left_over(q, t))[j]),
{
    let kept = |v: u32| !t.contains(v);
    let dropped = |v: u32| t.contains(v);
    let nonhole = |v: u32| v != HOLE;
    let order = picked(q, kept, n);
    let src = picked_places(q, kept, n);
    let a = picked(t, nonhole, n);
    let b = picked(q, dropped, n);
    assert(order == left_over(q, t));
    lemma_picked(q, kept, n);
    lemma_picked_split(q, kept, dropped, n);
    lemma_holes_picked(t, n);
    assert forall|i: int, j: int|
        0 <= i < n && 0 <= j < n && i != j && nonhole(t[i]) && nonhole(t[j]) implies t[i]
        != t[j] by {
        assert(t[i] == p[i] && t[j] == p[j]);
    }
    assert forall|i: int| 0 <= i < n && nonhole(t[i]) implies #[trigger] t[i] < n by {
        assert(t[i] == p[i]);
    }
    lemma_picked_distinct(t, nonhole, n, n);
    lemma_picked_distinct(q, dropped, n, n);
    lemma_picked_distinct(q, kept, n, n);
    lemma_permutation_covers(q, n);
    assert forall|v: u32| a.contains(v) <==> b.contains(v) by {
        if a.contains(v) {
            let j = choose|j: int| 0 <= j < n && t[j] == v;
            assert(t[j] == p[j]);
            assert(t.contains(v));
            assert(q.contains(v));
            let i = choose|i: int| 0 <= i < q.len() && q[i] == v;
            assert(0 <= i < n && q[i] == v);
        }
        if b.contains(v) {
            let i = choose|i: int| 0 <= i < n && q[i] == v;
            assert(q[i] < n);
            let j = choose|j: int| 0 <= j < t.len() && t[j] == v;
            assert(0 <= j < n && t[j] == v);
        }
    }
    lemma_same_jobs_same_length(a, b, n);
    let r = filled(t, t, 0, order);
    assert forall|i: int| 0 <= i < n && t[i] == HOLE implies 0 <= holes_between(t, 0, i)
        < order.len() by {
        lemma_holes_grow(t, 0, i, n as int);
    }
    assert forall|i: int| 0 <= i < n implies #[trigger] r[i] < n by {
        if t[i] == HOLE {
            let h = holes_between(t, 0, i) as int;
            assert(0 <= h < order.len());
            assert(0 <= src[h] < n);
            assert(order[h] == q[src[h]]);
        } else {
            assert(t[i] == p[i]);
        }
    }
    assert forall|i: int, j: int| 0 <= i < n && 0 <= j < n && i != j implies r[i] != r[j] by {
        let hi = holes_between(t, 0, i) as int;
        let hj = holes_between(t, 0, j) as int;
        if t[i] == HOLE && t[j] == HOLE {
            if i < j {
                lemma_holes_grow(t, 0, i, j);
            } else {
                lemma_holes_grow(t, 0, j, i);
            }
            assert(0 <= hi < order.len() && 0 <= hj < order.len());
            assert(order[hi] != order[hj]);
        } else if t[i] == HOLE {
            assert(0 <= hi < order.len());
            assert(order.contains(order[hi]));
            assert(t.contains(t[j]));
        } else if t[j] == HOLE {
            assert(0 <= hj < order.len());
            assert(order.contains(order[hj]));
            assert(t.contains(t[i]));
        } else {
            assert(t[i] == p[i] && t[j] == p[j]);
        }
    }
    assert forall|i: int, j: int| 0 <= i < j < n && t[i] == HOLE && t[j] == HOLE implies place_of(
        q,
        #[trigger] r[i],
    ) < place_of(q, #[trigger] r[j]) by {
        let hi = holes_between(t, 0, i) as int;
        let hj = holes_between(t, 0, j) as int;
        lemma_holes_grow(t, 0, i, j);
        assert(0 <= hi < hj < order.len());
        assert(0 <= src[hi] < n && 0 <= src[hj] < n);
        assert(src[hi] < src[hj]);
        assert(r[i] == q[src[hi]] && r[j] == q[src[hj]]);
        lemma_place_of(q, src[hi]);
        lemma_place_of(q, src[hj]);
    }
}

/// In a sequence of distinct jobs the place of the job at place `i` is `i`.
pub proof fn lemma_place_of(s: Seq<u32>, i: int)
    requires
        s.no_duplicates(),
        0 <= i < s.len(),
    ensures
        place_of(s, s[i]) == i,
{
    let k = place_of(s, s[i]);
    assert(0 <= k < s.len() && s[k] == s[i]);
}

/// The order crossover of two permutations with the segment from `lo` up to
/// `hi`: each child keeps its own parent's jobs in the segment and where the
/// parents agree (with `adjacent`: where they agree at two neighbouring
/// places), and takes the other jobs in the order of the other parent.
pub fn order_crossover(
    p1: &Chromosome,
    p2: &Chromosome,
    lo: usize,
    hi: usize,
    adjacent: bool,
) -> (r: (Vec<u32>, Vec<u32>))
    requires
        is_permutation(p1.jobs@, p1.jobs@.len()),
        is_permutation(p2.jobs@, p1.jobs@.len()),
        p1.jobs@.len() <= u32::MAX,
        lo <= hi <= p1.jobs@.len(),
    ensures
        is_ox_child(r.0@, p1.jobs@, p2.jobs@, lo as int, hi as int, adjacent),
        is_ox_child(r.1@, p2.jobs@, p1.jobs@, lo as int, hi as int, adjacent),
{
    let ghost n = p1.jobs@.len();
    let ghost a = p1.jobs@;
    let ghost b = p2.jobs@;
    let (mut c1, mut c2) = generate_children(p1, p2);
    copy_segment(&mut c1, &p1.jobs, lo, hi);
    copy_segment(&mut c2, &p2.jobs, lo, hi);
    let mut p1_order: Vec<u32> = Vec::new();
    let mut p2_order: Vec<u32> = Vec::new();
    if adjacent {
        match_blocks(p1, p2, &mut c1, &mut c2, &mut p1_order, &mut p2_order);
    } else {
        copy_matches(&p1.jobs, &p2.jobs, &mut c1, &mut c2, false);
        append_left_over(&p1.jobs, &c2, &mut p1_order);
        append_left_over(&p2.jobs, &c1, &mut p2_order);
    }
    let ghost t1 = c1@;
    let ghost t2 = c2@;
    proof {
        assert(p1_order@ =~= left_over(a, t2));
        assert(p2_order@ =~= left_over(b, t1));
        assert forall|i: int| 0 <= i < n implies (#[trigger] t1[i] == HOLE <==> !kept_place(
            a,
            b,
            lo as int,
            hi as int,
            adjacent,
            i,
        )) && (t1[i] == HOLE || t1[i] == a[i]) by {
            assert(a[i] < n);
        }
        assert forall|i: int| 0 <= i < n implies (#[trigger] t2[i] == HOLE <==> !kept_place(
            b,
            a,
            lo as int,
            hi as int,
            adjacent,
            i,
        )) && (t2[i] == HOLE || t2[i] == b[i]) by {
            assert(b[i] < n);
            assert(agree(a, b, i) == agree(b, a, i));
            if i > 0 {
                assert(agree(a, b, i - 1) == agree(b, a, i - 1));
            }
            if i < n - 1 {
                assert(agree(a, b, i + 1) == agree(b, a, i + 1));
            }
        }
        assert forall|i: int| 0 <= i < n implies (#[trigger] t1[i] == HOLE <==> t2[i]
            == HOLE) by {
            assert(agree(a, b, i) == agree(b, a, i));
            if i > 0 {
                assert(agree(a, b, i - 1) == agree(b, a, i - 1));
            }
            if i < n - 1 {
                assert(agree(a, b, i + 1) == agree(b, a, i + 1));
            }
        }
        lemma_ox_child(a, b, t1, n);
        lemma_ox_child(b, a, t2, n);
        lemma_same_holes(t1, t2, 0, n as int);
        assert(filled(t2, t1, 0, p1_order@) =~= filled(t2, t2, 0, p1_order@)) by {
            assert forall|i: int| 0 <= i < n implies holes_between(t1, 0, i) == holes_between(
                t2,
                0,
                i,
            ) by {
                lemma_same_holes(t1, t2, 0, i);
            }
        }
    }
    insert_remaining(0, &mut c1, p2_order, &mut c2, p1_order);
    (c1, c2)
}

/// `c1` and `c2` are the children of the order crossover of `p1` and `p2`
/// with one cut, which is `k` if a `k` is given.
pub open spec fn is_single_cut_pair(
    k: Option<usize>,
    p1: Seq<u32>,
    p2: Seq<u32>,
    c1: Seq<u32>,
    c2: Seq<u32>,
) -> bool {
    exists|cut: int|
        {
            &&& 0 <= cut <= p1.len()
            &&& k.is_some() ==> cut == k.unwrap()
            &&& #[trigger] is_ox_child(c1, p1, p2, 0, cut, false)
            &&& is_ox_child(c2, p2, p1, 0, cut, false)
        }
}

/// `c1` and `c2` are the children of the order crossover of `p1` and `p2`
/// with two cuts.
pub open spec fn is_two_cut_pair(p1: Seq<u32>, p2: Seq<u32>, c1: Seq<u32>, c2: Seq<u32>) -> bool {
    exists|start: int, stop: int|
        {
            &&& 0 <= start <= stop < p1.len()
            &&& #[trigger] is_ox_child(c1, p1, p2, start, stop, true)
            &&& is_ox_child(c2, p2, p1, start, stop, true)
        }
}

impl Crossover for SJ2OX {
    /// A cut, if one is given, lies within the jobs.
    open spec fn accepts(k: Option<usize>, jobs: nat) -> bool {
        k.is_some() ==> k.unwrap() <= jobs
    }

    /// Order crossover with one cut, at `k` or, if none is given, at a
    /// random place: each child keeps its own parent's jobs before the cut
    /// and wherever the parents agree.
    fn apply(
        p1: &Chromosome,
        p2: &Chromosome,
        k: Option<usize>,
        _makespan: &mut Makespan,
        rng: &mut StdRng,
    ) -> (r: (Chromosome, Chromosome))
        ensures
            is_single_cut_pair(k, p1.jobs@, p2.jobs@, r.0.jobs@, r.1.jobs@),
            forall|i: int|
                0 <= i < p1.jobs@.len() && p1.jobs@[i] == p2.jobs@[i] ==> #[trigger] r.0.jobs@[i]
                    == p1.jobs@[i] && r.1.jobs@[i] == p2.jobs@[i],
            r.0.updated && r.0.makespan.is_none(),
            r.1.updated && r.1.makespan.is_none(),
            *final(_makespan) == *old(_makespan),
    {
        let cut: usize = match k {
            Some(given) => given,
            None => draw_below(rng, p1.jobs.len()),
        };
        let (c1, c2) = order_crossover(p1, p2, 0, cut, false);
        proof {
            assert forall|i: int|
                0 <= i < p1.jobs@.len() && p1.jobs@[i] == p2.jobs@[i] implies #[trigger] c1@[i]
                == p1.jobs@[i] && c2@[i] == p2.jobs@[i] by {
                assert(kept_place(p1.jobs@, p2.jobs@, 0, cut as int, false, i));
                assert(kept_place(p2.jobs@, p1.jobs@, 0, cut as int, false, i));
            }
        }
        let r = (
            Chromosome { jobs: c1, makespan: None, updated: true },
            Chromosome { jobs: c2, makespan: None, updated: true },
        );
        assert(is_ox_child(r.0.jobs@, p1.jobs@, p2.jobs@, 0, cut as int, false));
        assert(is_ox_child(r.1.jobs@, p2.jobs@, p1.jobs@, 0, cut as int, false));
        assert(is_single_cut_pair(k, p1.jobs@, p2.jobs@, r.0.jobs@, r.1.jobs@));
        r
    }
}

impl Crossover for SB2OX {
    /// No `k` is looked at.
    open spec fn accepts(k: Option<usize>, jobs: nat) -> bool {
        true
    }

    /// Order crossover with two cuts at random places: each child keeps its
    /// own parent's jobs between the cuts and wherever the parents agree at
    /// two neighbouring places.
    fn apply(
        p1: &Chromosome,
        p2: &Chromosome,
        _k: Option<usize>,
        _makespan: &mut Makespan,
        rng: &mut StdRng,
    ) -> (r: (Chromosome, Chromosome))
        ensures
            is_two_cut_pair(p1.jobs@, p2.jobs@, r.0.jobs@, r.1.jobs@),
            r.0.updated && r.0.makespan.is_none(),
            r.1.updated && r.1.makespan.is_none(),
            *final(_makespan) == *old(_makespan),
    {
        let k1 = draw_below(rng, p1.jobs.len());
        let k2 = draw_below(rng, p1.jobs.len());
        let start: usize = if k1 <= k2 {
            k1
        } else {
            k2
        };
        let stop: usize = if k1 <= k2 {
            k2
        } else {
            k1
        };
        let (c1, c2) = order_crossover(p1, p2, start, stop, true);
        let r = (
            Chromosome { jobs: c1, makespan: None, updated: true },
            Chromosome { jobs: c2, makespan: None, updated: true },
        );
        assert(is_ox_child(r.0.jobs@, p1.jobs@, p2.jobs@, start as int, stop as int, true));
        assert(is_ox_child(r.1.jobs@, p2.jobs@, p1.jobs@, start as int, stop as int, true));
        assert(is_two_cut_pair(p1.jobs@, p2.jobs@, r.0.jobs@, r.1.jobs@));
        r
    }
}

} // verus!
