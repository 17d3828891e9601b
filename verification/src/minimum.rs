//! The first least value of a sequence.

use vstd::prelude::*;

verus! {

/// `values[p]` is the least of `values`, and nothing before it is as small.
pub open spec fn is_first_minimum(values: Seq<int>, p: int) -> bool {
    &&& 0 <= p < values.len()
    &&& forall|k: int| 0 <= k < values.len() ==> values[p] <= #[trigger] values[k]
    &&& forall|k: int| 0 <= k < p ==> #[trigger] values[k] > values[p]
}

/// The place of the first least value.
pub open spec fn first_minimum(values: Seq<int>) -> int {
    choose|p: int| is_first_minimum(values, p)
}

/// There is only one first minimum.
pub proof fn lemma_first_minimum_is(values: Seq<int>, p: int)
    requires
        is_first_minimum(values, p),
    ensures
        first_minimum(values) == p,
{
    let c = first_minimum(values);
    assert(is_first_minimum(values, c));
    if c < p {
        assert(values[c] > values[p]);
    }
    if p < c {
        assert(values[p] > values[c]);
    }
}

/// A sequence that is not empty has a first minimum.
pub proof fn lemma_first_minimum_exists(values: Seq<int>)
    requires
        values.len() >= 1,
    ensures
        is_first_minimum(values, first_minimum(values)),
    decreases values.len(),
{
    if values.len() == 1 {
        assert(is_first_minimum(values, 0));
    } else {
        let rest = values.drop_last();
        lemma_first_minimum_exists(rest);
        let b = first_minimum(rest);
        let p = if values.last() < rest[b] {
            values.len() - 1
        } else {
            b
        };
        assert forall|k: int| 0 <= k < values.len() implies values[p] <= #[trigger] values[k] by {
            if k < rest.len() {
                assert(rest[b] <= rest[k]);
            }
        }
        assert forall|k: int| 0 <= k < p implies #[trigger] values[k] > values[p] by {
            assert(rest[b] <= rest[k]);
            if k < b {
                assert(rest[k] > rest[b]);
            }
        }
        assert(is_first_minimum(values, p));
    }
}

} // verus!
