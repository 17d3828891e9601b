//! Job permutations: sequences in which every job of an instance occurs
//! exactly once.

use vstd::prelude::*;

verus! {

/// `s` holds each of the jobs `0..n` exactly once.
pub open spec fn is_permutation(s: Seq<u32>, n: nat) -> bool {
    &&& s.len() == n
    &&& forall|i: int| 0 <= i < s.len() ==> #[trigger] s[i] < n
    &&& s.no_duplicates()
}

/// `s` holds jobs of `0..n` only, none of them twice.
pub open spec fn is_partial_permutation(s: Seq<u32>, n: nat) -> bool {
    &&& forall|i: int| 0 <= i < s.len() ==> #[trigger] s[i] < n
    &&& s.no_duplicates()
}

/// A sequence with the same elements as a permutation, each as often, is a
/// permutation.
pub proof fn lemma_same_elements(a: Seq<u32>, b: Seq<u32>, n: nat)
    requires
        is_partial_permutation(a, n),
        a.to_multiset() == b.to_multiset(),
    ensures
        is_partial_permutation(b, n),
        b.len() == a.len(),
{
    broadcast use vstd::seq_lib::to_multiset_contains, vstd::seq_lib::to_multiset_len;

    a.lemma_multiset_has_no_duplicates();
    b.lemma_multiset_has_no_duplicates_conv();
    vstd::seq_lib::to_multiset_len(a);
    vstd::seq_lib::to_multiset_len(b);
    assert forall|i: int| 0 <= i < b.len() implies #[trigger] b[i] < n by {
        assert(b.contains(b[i]));
        assert(a.to_multiset().count(b[i]) > 0);
        assert(a.contains(b[i]));
        let k = choose|k: int| 0 <= k < a.len() && a[k] == b[i];
        assert(a[k] < n);
    }
}

/// Taking a job out of a partial permutation leaves a partial permutation
/// that does not hold the job.
pub proof fn lemma_remove(s: Seq<u32>, n: nat, i: int)
    requires
        is_partial_permutation(s, n),
        0 <= i < s.len(),
    ensures
        is_partial_permutation(s.remove(i), n),
        !s.remove(i).contains(s[i]),
        s.remove(i).len() == s.len() - 1,
{
    let r = s.remove(i);
    assert forall|a: int, b: int| 0 <= a < r.len() && 0 <= b < r.len() && a != b implies r[a]
        != r[b] by {
        let a0 = if a < i {
            a
        } else {
            a + 1
        };
        let b0 = if b < i {
            b
        } else {
            b + 1
        };
        assert(r[a] == s[a0] && r[b] == s[b0]);
    }
    assert forall|a: int| 0 <= a < r.len() implies #[trigger] r[a] < n && r[a] != s[i] by {
        let a0 = if a < i {
            a
        } else {
            a + 1
        };
        assert(r[a] == s[a0]);
    }
}

/// Putting a job that it does not hold into a partial permutation gives a
/// partial permutation.
pub proof fn lemma_insert(s: Seq<u32>, n: nat, i: int, job: u32)
    requires
        is_partial_permutation(s, n),
        0 <= i <= s.len(),
        job < n,
        !s.contains(job),
    ensures
        is_partial_permutation(s.insert(i, job), n),
        s.insert(i, job).len() == s.len() + 1,
{
    let r = s.insert(i, job);
    assert forall|a: int| 0 <= a < r.len() implies #[trigger] r[a] < n by {
        if a < i {
            assert(r[a] == s[a]);
        } else if a > i {
            assert(r[a] == s[a - 1]);
        }
    }
    assert forall|a: int, b: int| 0 <= a < r.len() && 0 <= b < r.len() && a != b implies r[a]
        != r[b] by {
        let a0 = if a < i {
            a
        } else {
            a - 1
        };
        let b0 = if b < i {
            b
        } else {
            b - 1
        };
        if a != i && b != i {
            assert(r[a] == s[a0] && r[b] == s[b0]);
        } else if a == i {
            assert(r[b] == s[b0]);
            assert(s.contains(s[b0]));
        } else {
            assert(r[a] == s[a0]);
            assert(s.contains(s[a0]));
        }
    }
}

/// The number of jobs below `bound` that `s` holds.
pub open spec fn count_below(s: Seq<u32>, bound: nat) -> nat
    decreases bound,
{
    if bound == 0 {
        0
    } else {
        count_below(s, (bound - 1) as nat) + if s.contains((bound - 1) as u32) {
            1nat
        } else {
            0nat
        }
    }
}

proof fn lemma_count_below_bound(s: Seq<u32>, bound: nat)
    ensures
        count_below(s, bound) <= bound,
    decreases bound,
{
    if bound > 0 {
        lemma_count_below_bound(s, (bound - 1) as nat);
    }
}

proof fn lemma_count_below_all(s: Seq<u32>, bound: nat)
    requires
        count_below(s, bound) == bound,
        bound <= u32::MAX,
    ensures
        forall|job: u32| job < bound ==> s.contains(job),
    decreases bound,
{
    if bound > 0 {
        lemma_count_below_bound(s, (bound - 1) as nat);
        lemma_count_below_all(s, (bound - 1) as nat);
        assert forall|job: u32| job < bound implies s.contains(job) by {
            if job == bound - 1 {
                assert(s.contains((bound - 1) as u32));
            }
        }
    }
}

proof fn lemma_count_below_without(s: Seq<u32>, bound: nat)
    requires
        s.len() > 0,
        s.no_duplicates(),
        bound <= u32::MAX + 1,
    ensures
        count_below(s, bound) == count_below(s.drop_last(), bound) + if s.last() < bound {
            1nat
        } else {
            0nat
        },
    decreases bound,
{
    if bound > 0 {
        lemma_count_below_without(s, (bound - 1) as nat);
        let job = (bound - 1) as u32;
        let rest = s.drop_last();
        if s.last() == job {
            assert(s.contains(job)) by {
                assert(s[s.len() - 1] == job);
            }
            if rest.contains(job) {
                let k = choose|k: int| 0 <= k < rest.len() && rest[k] == job;
                assert(s[k] == job);
            }
        } else {
            if s.contains(job) {
                let k = choose|k: int| 0 <= k < s.len() && s[k] == job;
                assert(rest[k] == job);
            }
            if rest.contains(job) {
                let k = choose|k: int| 0 <= k < rest.len() && rest[k] == job;
                assert(s[k] == job);
            }
        }
    }
}

/// A partial permutation holds as many jobs below `n` as it is long.
pub proof fn lemma_count_below_len(s: Seq<u32>, n: nat)
    requires
        is_partial_permutation(s, n),
        n <= u32::MAX,
    ensures
        count_below(s, n) == s.len(),
    decreases s.len(),
{
    if s.len() == 0 {
        lemma_count_below_empty(s, n);
    } else {
        let rest = s.drop_last();
        assert(is_partial_permutation(rest, n)) by {
            assert forall|i: int| 0 <= i < rest.len() implies #[trigger] rest[i] < n by {
                assert(rest[i] == s[i]);
            }
        }
        lemma_count_below_len(rest, n);
        lemma_count_below_without(s, n);
        assert(s[s.len() - 1] < n);
    }
}

proof fn lemma_count_below_empty(s: Seq<u32>, bound: nat)
    requires
        s.len() == 0,
    ensures
        count_below(s, bound) == 0,
    decreases bound,
{
    if bound > 0 {
        lemma_count_below_empty(s, (bound - 1) as nat);
    }
}

/// Sequences that hold the same jobs hold equally many jobs below a bound.
pub proof fn lemma_count_below_same(a: Seq<u32>, b: Seq<u32>, bound: nat)
    requires
        forall|v: u32| a.contains(v) <==> b.contains(v),
    ensures
        count_below(a, bound) == count_below(b, bound),
    decreases bound,
{
    if bound > 0 {
        lemma_count_below_same(a, b, (bound - 1) as nat);
    }
}

/// A partial permutation of `0..n` holds at most `n` jobs.
pub proof fn lemma_partial_length(s: Seq<u32>, n: nat)
    requires
        is_partial_permutation(s, n),
        n <= u32::MAX,
    ensures
        s.len() <= n,
{
    lemma_count_below_len(s, n);
    lemma_count_below_bound(s, n);
}

/// A permutation of `0..n` holds every job below `n`.
pub proof fn lemma_permutation_covers(s: Seq<u32>, n: nat)
    requires
        is_permutation(s, n),
        n <= u32::MAX,
    ensures
        forall|job: u32| job < n ==> s.contains(job),
{
    lemma_count_below_len(s, n);
    lemma_count_below_all(s, n);
}

/// The jobs `0..n` in ascending order.
pub fn ascending_jobs(n: u32) -> (r: Vec<u32>)
    ensures
        r@ == crate::schedule::numbering(n as nat),
        is_permutation(r@, n as nat),
{
    let mut r: Vec<u32> = Vec::with_capacity(n as usize);
    let mut job: u32 = 0;
    while job < n
        invariant
            job <= n,
            r@ == crate::schedule::numbering(n as nat).take(job as int),
        decreases n - job,
    {
        r.push(job);
        job += 1;
    }
    assert(r@ == crate::schedule::numbering(n as nat));
    r
}

/// Tells whether `jobs` holds each of the jobs `0..n` exactly once.
pub fn check_permutation(jobs: &Vec<u32>, n: u32) -> (r: bool)
    ensures
        r == is_permutation(jobs@, n as nat),
{
    if jobs.len() != n as usize {
        return false;
    }
    let mut seen: Vec<bool> = Vec::with_capacity(n as usize);
    let mut k: u32 = 0;
    while k < n
        invariant
            k <= n,
            seen.len() == k,
            forall|j: int| 0 <= j < k ==> !#[trigger] seen@[j],
        decreases n - k,
    {
        seen.push(false);
        k += 1;
    }
    let mut i: usize = 0;
    while i < jobs.len()
        invariant
            i <= jobs.len(),
            jobs.len() == n,
            seen.len() == n,
            forall|a: int| 0 <= a < i ==> #[trigger] jobs@[a] < n,
            forall|a: int, b: int| 0 <= a < i && 0 <= b < i && a != b ==> jobs@[a] != jobs@[b],
            forall|j: int|
                0 <= j < n ==> (#[trigger] seen@[j] <==> exists|a: int|
                    0 <= a < i && jobs@[a] == j),
        decreases jobs.len() - i,
    {
        let job = jobs[i];
        if job >= n {
            return false;
        }
        if seen[job as usize] {
            proof {
                let a = choose|a: int| 0 <= a < i && jobs@[a] == job;
                assert(jobs@[a] == jobs@[i as int]);
            }
            return false;
        }
        seen[job as usize] = true;
        proof {
            assert forall|j: int| 0 <= j < n implies (#[trigger] seen@[j] <==> exists|a: int|
                0 <= a < i + 1 && jobs@[a] == j) by {
                if j == job {
                    assert(jobs@[i as int] == j);
                } else {
                    if seen@[j] {
                        let a = choose|a: int| 0 <= a < i && jobs@[a] == j;
                        assert(0 <= a < i + 1 && jobs@[a] == j);
                    }
                }
            }
            assert forall|a: int, b: int|
                0 <= a < i + 1 && 0 <= b < i + 1 && a != b implies jobs@[a] != jobs@[b] by {
                if a == i && jobs@[b] == job {
                    assert(0 <= b < i && jobs@[b] == job as int);
                }
                if b == i && jobs@[a] == job {
                    assert(0 <= a < i && jobs@[a] == job as int);
                }
            }
        }
        i += 1;
    }
    true
}

/// Tells whether `list` holds `job`.
pub fn holds(list: &Vec<u32>, job: u32) -> (r: bool)
    ensures
        r == list@.contains(job),
{
    let mut i: usize = 0;
    while i < list.len()
        invariant
            i <= list.len(),
            forall|j: int| 0 <= j < i ==> list@[j] != job,
        decreases list.len() - i,
    {
        if list[i] == job {
            return true;
        }
        i += 1;
    }
    false
}

} // verus!
