//! Picking from a sequence the values that meet a condition, in their
//! order.

use crate::permutation::{
    is_partial_permutation, lemma_count_below_len, lemma_count_below_same,
};
use vstd::prelude::*;

verus! {

/// The places among the first `k` of `s` whose values meet `pred`, ascending.
pub open spec fn picked_places(s: Seq<u32>, pred: spec_fn(u32) -> bool, k: nat) -> Seq<int>
    decreases k,
{
    if k == 0 {
        Seq::<int>::empty()
    } else if pred(s[k - 1]) {
        picked_places(s, pred, (k - 1) as nat).push(k - 1)
    } else {
        picked_places(s, pred, (k - 1) as nat)
    }
}

/// The values among the first `k` of `s` that meet `pred`, in their order.
pub open spec fn picked(s: Seq<u32>, pred: spec_fn(u32) -> bool, k: nat) -> Seq<u32>
    decreases k,
{
    if k == 0 {
        Seq::<u32>::empty()
    } else if pred(s[k - 1]) {
        picked(s, pred, (k - 1) as nat).push(s[k - 1])
    } else {
        picked(s, pred, (k - 1) as nat)
    }
}

/// What is picked stands at the picked places, which ascend and leave out no
/// value that meets the condition.
pub proof fn lemma_picked(s: Seq<u32>, pred: spec_fn(u32) -> bool, k: nat)
    requires
        k <= s.len(),
    ensures
        picked(s, pred, k).len() == picked_places(s, pred, k).len(),
        picked(s, pred, k).len() <= k,
        forall|a: int|
            0 <= a < picked(s, pred, k).len() ==> {
                &&& 0 <= #[trigger] picked_places(s, pred, k)[a] < k
                &&& picked(s, pred, k)[a] == s[picked_places(s, pred, k)[a]]
                &&& pred(picked(s, pred, k)[a])
            },
        forall|a: int, b: int|
            0 <= a < b < picked(s, pred, k).len() ==> picked_places(s, pred, k)[a]
                < picked_places(s, pred, k)[b],
        forall|j: int|
            0 <= j < k && pred(#[trigger] s[j]) ==> exists|a: int|
                0 <= a < picked(s, pred, k).len() && picked_places(s, pred, k)[a] == j,
    decreases k,
{
    if k > 0 {
        let before = (k - 1) as nat;
        lemma_picked(s, pred, before);
        let v = picked(s, pred, k);
        let w = picked_places(s, pred, k);
        let v0 = picked(s, pred, before);
        let w0 = picked_places(s, pred, before);
        assert forall|a: int| 0 <= a < v.len() implies {
            &&& 0 <= #[trigger] w[a] < k
            &&& v[a] == s[w[a]]
            &&& pred(v[a])
        } by {
            if a < v0.len() {
                assert(0 <= w0[a] < before);
            }
        }
        assert forall|a: int, b: int| 0 <= a < b < v.len() implies w[a] < w[b] by {
            assert(0 <= w0[a] < before);
            if b < v0.len() {
                assert(w0[a] < w0[b]);
            }
        }
        assert forall|j: int| 0 <= j < k && pred(#[trigger] s[j]) implies exists|a: int|
            0 <= a < v.len() && w[a] == j by {
            if j < before {
                let a = choose|a: int| 0 <= a < v0.len() && w0[a] == j;
                assert(w[a] == j);
            } else {
                assert(w[v.len() - 1] == j);
            }
        }
    }
}

/// Of the first `k` values every one is picked either by a condition or by
/// its opposite.
pub proof fn lemma_picked_split(
    s: Seq<u32>,
    pred: spec_fn(u32) -> bool,
    other: spec_fn(u32) -> bool,
    k: nat,
)
    requires
        k <= s.len(),
        forall|v: u32| #[trigger] other(v) <==> !pred(v),
    ensures
        picked(s, pred, k).len() + picked(s, other, k).len() == k,
    decreases k,
{
    if k > 0 {
        lemma_picked_split(s, pred, other, (k - 1) as nat);
    }
}

/// What is picked from values that differ from one another differs from one
/// another, and holds exactly the values that meet the condition.
pub proof fn lemma_picked_distinct(
    s: Seq<u32>,
    pred: spec_fn(u32) -> bool,
    k: nat,
    n: nat,
)
    requires
        k <= s.len(),
        forall|i: int, j: int|
            0 <= i < k && 0 <= j < k && i != j && pred(s[i]) && pred(s[j]) ==> s[i] != s[j],
        forall|i: int| 0 <= i < k && pred(s[i]) ==> #[trigger] s[i] < n,
    ensures
        is_partial_permutation(picked(s, pred, k), n),
        forall|v: u32|
            picked(s, pred, k).contains(v) <==> (pred(v) && exists|j: int|
                0 <= j < k && s[j] == v),
{
    lemma_picked(s, pred, k);
    let p = picked(s, pred, k);
    let w = picked_places(s, pred, k);
    assert forall|a: int, b: int| 0 <= a < p.len() && 0 <= b < p.len() && a != b implies p[a]
        != p[b] by {
        assert(0 <= w[a] < k && 0 <= w[b] < k);
        if a < b {
            assert(w[a] < w[b]);
        } else {
            assert(w[b] < w[a]);
        }
        assert(pred(p[a]) && pred(p[b]));
    }
    assert forall|a: int| 0 <= a < p.len() implies #[trigger] p[a] < n by {
        assert(0 <= w[a] < k);
    }
    assert forall|v: u32|
        p.contains(v) <==> (pred(v) && exists|j: int| 0 <= j < k && s[j] == v) by {
        if p.contains(v) {
            let a = choose|a: int| 0 <= a < p.len() && p[a] == v;
            assert(0 <= w[a] < k && s[w[a]] == v);
        }
        if pred(v) && exists|j: int| 0 <= j < k && s[j] == v {
            let j = choose|j: int| 0 <= j < k && s[j] == v;
            assert(pred(s[j]));
            let a = choose|a: int| 0 <= a < p.len() && w[a] == j;
            assert(0 <= w[a] < k);
            assert(p[a] == v);
        }
    }
}

/// Two sequences of distinct jobs below `n` that hold the same jobs are
/// equally long.
pub proof fn lemma_same_jobs_same_length(a: Seq<u32>, b: Seq<u32>, n: nat)
    requires
        is_partial_permutation(a, n),
        is_partial_permutation(b, n),
        n <= u32::MAX,
        forall|v: u32| a.contains(v) <==> b.contains(v),
    ensures
        a.len() == b.len(),
{
    lemma_count_below_len(a, n);
    lemma_count_below_len(b, n);
    lemma_count_below_same(a, b, n);
}

} // verus!
