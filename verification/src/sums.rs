//! Lemmas on weighted sums over a sequence of line lengths.

use vstd::prelude::*;
use vstd::seq_lib::{to_multiset_contains, to_multiset_len, to_multiset_remove};

use crate::measures::weighted_sum;

verus! {

/// The sum over a concatenation is the sum of the sums over its parts.
pub proof fn lemma_weighted_sum_concat(a: Seq<usize>, b: Seq<usize>, weight: spec_fn(usize) -> int)
    ensures
        weighted_sum(a + b, weight) == weighted_sum(a, weight) + weighted_sum(b, weight),
    decreases b.len(),
{
    if b.len() == 0 {
        assert(a + b == a);
    } else {
        lemma_weighted_sum_concat(a, b.drop_last(), weight);
        assert((a + b).drop_last() == a + b.drop_last());
        assert((a + b).last() == b.last());
    }
}

/// Taking one value out lowers the sum by that value's weight.
pub proof fn lemma_weighted_sum_remove(s: Seq<usize>, i: int, weight: spec_fn(usize) -> int)
    requires
        0 <= i < s.len(),
    ensures
        weighted_sum(s, weight) == weighted_sum(s.remove(i), weight) + weight(s[i]),
    decreases s.len(),
{
    if i == s.len() - 1 {
        assert(s.remove(i) == s.drop_last());
    } else {
        lemma_weighted_sum_remove(s.drop_last(), i, weight);
        assert(s.remove(i).drop_last() == s.drop_last().remove(i));
        assert(s.remove(i).last() == s.last());
    }
}

/// The sum does not depend on the order of the values.
pub proof fn lemma_weighted_sum_permutation(
    a: Seq<usize>,
    b: Seq<usize>,
    weight: spec_fn(usize) -> int,
)
    requires
        a.to_multiset() == b.to_multiset(),
    ensures
        weighted_sum(a, weight) == weighted_sum(b, weight),
    decreases a.len(),
{
    to_multiset_len(a);
    to_multiset_len(b);
    if a.len() > 0 {
        let x = a.last();
        assert(a[a.len() - 1] == x);
        assert(a.contains(x));
        to_multiset_contains(a, x);
        to_multiset_contains(b, x);
        let j = choose|j: int| 0 <= j < b.len() && b[j] == x;
        to_multiset_remove(a, a.len() - 1);
        to_multiset_remove(b, j);
        assert(a.remove(a.len() - 1) == a.drop_last());
        lemma_weighted_sum_permutation(a.drop_last(), b.remove(j), weight);
        lemma_weighted_sum_remove(b, j, weight);
    }
}

/// Where every weight lies between `low` and `high`, the sum lies between
/// the length times `low` and the length times `high`.
pub proof fn lemma_weighted_sum_bounds(
    s: Seq<usize>,
    weight: spec_fn(usize) -> int,
    low: int,
    high: int,
)
    requires
        forall|i: int| 0 <= i < s.len() ==> low <= #[trigger] weight(s[i]) <= high,
    ensures
        s.len() * low <= weighted_sum(s, weight) <= s.len() * high,
    decreases s.len(),
{
    if s.len() > 0 {
        let init = s.drop_last();
        assert forall|i: int| 0 <= i < init.len() implies low <= #[trigger] weight(init[i])
            <= high by {
            assert(init[i] == s[i]);
        }
        lemma_weighted_sum_bounds(init, weight, low, high);
        assert(s[s.len() - 1] == s.last());
        let n = init.len() as int;
        assert((n + 1) * low == n * low + low) by (nonlinear_arith);
        assert((n + 1) * high == n * high + high) by (nonlinear_arith);
    }
}

/// Where no weight is negative, the sum over a prefix is at most the sum
/// over the whole sequence.
pub proof fn lemma_weighted_sum_prefix(s: Seq<usize>, k: int, weight: spec_fn(usize) -> int)
    requires
        0 <= k <= s.len(),
        forall|x: usize| 0 <= #[trigger] weight(x),
    ensures
        0 <= weighted_sum(s.take(k), weight) <= weighted_sum(s, weight),
{
    let head = s.take(k);
    let tail = s.skip(k);
    assert(s == head + tail);
    lemma_weighted_sum_concat(head, tail, weight);
    lemma_weighted_sum_nonnegative(head, weight);
    lemma_weighted_sum_nonnegative(tail, weight);
}

/// Where no weight is negative, the sum is not negative.
pub proof fn lemma_weighted_sum_nonnegative(s: Seq<usize>, weight: spec_fn(usize) -> int)
    requires
        forall|x: usize| 0 <= #[trigger] weight(x),
    ensures
        0 <= weighted_sum(s, weight),
    decreases s.len(),
{
    if s.len() > 0 {
        lemma_weighted_sum_nonnegative(s.drop_last(), weight);
    }
}

} // verus!
