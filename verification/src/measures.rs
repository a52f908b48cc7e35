//! What the figures of a sequence of line lengths are.
//!
//! Everything here is mathematics over `Seq<usize>`: the definitions that the
//! contracts of the executable code refer to, and the lemmas that tie each
//! definition to the property it is chosen for. Mean, median and deviation are
//! kept exact: the mean as the pair (total, count), the median doubled, and
//! the population variance multiplied by the square of the count.

use vstd::prelude::*;
use vstd::relations::{sorted_by, total_ordering};
use vstd::seq_lib::{lemma_sorted_unique, to_multiset_len};

verus! {

/// `m` is the largest value of `s`; of an empty sequence it is 0.
pub open spec fn is_largest(s: Seq<usize>, m: usize) -> bool {
    if s.len() == 0 {
        m == 0
    } else {
        s.contains(m) && forall|i: int| 0 <= i < s.len() ==> s[i] <= m
    }
}

/// The largest value of `s`, 0 where `s` is empty.
pub open spec fn max_of(s: Seq<usize>) -> usize
    decreases s.len(),
{
    if s.len() == 0 {
        0
    } else if s.last() >= max_of(s.drop_last()) {
        s.last()
    } else {
        max_of(s.drop_last())
    }
}

/// A length that counts towards the minimum: one of two characters or more.
pub open spec fn counts_for_min(x: usize) -> bool {
    x > 1
}

/// `m` is the smallest value of `s` that is above 1; it is 0 where `s` holds
/// no such value.
pub open spec fn is_smallest_above_one(s: Seq<usize>, m: usize) -> bool {
    if exists|i: int| 0 <= i < s.len() && counts_for_min(s[i]) {
        &&& counts_for_min(m)
        &&& s.contains(m)
        &&& forall|i: int| 0 <= i < s.len() && counts_for_min(s[i]) ==> m <= s[i]
    } else {
        m == 0
    }
}

/// The smallest value of `s` among those above 1, 0 where there is none.
pub open spec fn min_of(s: Seq<usize>) -> usize
    decreases s.len(),
{
    if s.len() == 0 {
        0
    } else {
        let rest = min_of(s.drop_last());
        if counts_for_min(s.last()) && (rest == 0 || s.last() < rest) {
            s.last()
        } else {
            rest
        }
    }
}

/// The sum of `weight(x)` over the values `x` of `s`, each as often as it occurs.
pub open spec fn weighted_sum(s: Seq<usize>, weight: spec_fn(usize) -> int) -> int
    decreases s.len(),
{
    if s.len() == 0 {
        0
    } else {
        weighted_sum(s.drop_last(), weight) + weight(s.last())
    }
}

/// The weight that gives the plain sum.
pub open spec fn by_value() -> spec_fn(usize) -> int {
    |x: usize| x as int
}

/// The weight that gives the sum of squares.
pub open spec fn by_square() -> spec_fn(usize) -> int {
    |x: usize| x * x
}

/// The weight that counts the values below 2.
pub open spec fn by_shortness() -> spec_fn(usize) -> int {
    |x: usize| if x < 2 { 1int } else { 0int }
}

/// The sum of the values of `s`. The mean of `s` is `total_of(s) / s.len()`.
pub open spec fn total_of(s: Seq<usize>) -> int {
    weighted_sum(s, by_value())
}

/// The sum of the squares of the values of `s`.
pub open spec fn sum_squares_of(s: Seq<usize>) -> int {
    weighted_sum(s, by_square())
}

/// How many values of `s` are 0 or 1.
pub open spec fn short_count(s: Seq<usize>) -> int {
    weighted_sum(s, by_shortness())
}

/// The order that the median is taken in.
pub open spec fn at_most() -> spec_fn(usize, usize) -> bool {
    |a: usize, b: usize| a <= b
}

/// No value of `s` is followed by a smaller one.
pub open spec fn ascending(s: Seq<usize>) -> bool {
    forall|i: int, j: int| 0 <= i <= j < s.len() ==> s[i] <= s[j]
}

/// The values of `s` in ascending order.
pub open spec fn sorted(s: Seq<usize>) -> Seq<usize> {
    s.sort_by(at_most())
}

/// Twice the median of `s`: twice the middle value of `sorted(s)` where the
/// length is odd, the sum of the two middle values where it is even, and 0
/// for an empty sequence.
pub open spec fn median_twice_of(s: Seq<usize>) -> int {
    let t = sorted(s);
    let n = s.len() as int;
    if n == 0 {
        0
    } else if n % 2 == 1 {
        2 * t[n / 2]
    } else {
        t[n / 2 - 1] + t[n / 2]
    }
}

/// The population variance of `s` multiplied by the square of its length:
/// `n * sum(x^2) - sum(x)^2`. The standard deviation of `s` is the square root
/// of this number, divided by `s.len()`.
pub open spec fn scaled_variance_of(s: Seq<usize>) -> int {
    s.len() * sum_squares_of(s) - total_of(s) * total_of(s)
}

/// The sum of the squares of the distances between the values of `s`, each
/// multiplied by the length `n`, and the total: `sum((n * x - total)^2)`.
/// Divided by the cube of `n` it is the mean squared distance from the mean.
pub open spec fn squared_distances_of(s: Seq<usize>) -> int {
    weighted_sum(s, by_distance(s.len() as int, total_of(s)))
}

/// The weight that gives the squared distance between `n * x` and `t`.
pub open spec fn by_distance(n: int, t: int) -> spec_fn(usize) -> int {
    |x: usize| (n * x - t) * (n * x - t)
}

/// The scaled variance as far as 128 bits hold it: `None` where the length
/// times the sum of squares is above `u128::MAX`.
pub open spec fn checked_variance_of(s: Seq<usize>) -> Option<u128> {
    if s.len() * sum_squares_of(s) <= u128::MAX {
        Some(scaled_variance_of(s) as u128)
    } else {
        None
    }
}

/// The figures of a sequence of line lengths.
pub struct Figures {
    /// How many values there are.
    pub count: nat,
    /// The largest value.
    pub max: usize,
    /// The smallest value above 1.
    pub min: usize,
    /// The sum of the values: the mean is `total / count`.
    pub total: int,
    /// Twice the median.
    pub median_twice: int,
    /// The population variance multiplied by `count * count`.
    pub scaled_variance: int,
}

/// The figures of `s`.
pub open spec fn figures_of(s: Seq<usize>) -> Figures {
    Figures {
        count: s.len(),
        max: max_of(s),
        min: min_of(s),
        total: total_of(s),
        median_twice: median_twice_of(s),
        scaled_variance: scaled_variance_of(s),
    }
}

/// `max_of` is the largest value, and nothing else is.
pub proof fn lemma_max_of(s: Seq<usize>)
    ensures
        is_largest(s, max_of(s)),
        forall|m: usize| is_largest(s, m) ==> m == max_of(s),
    decreases s.len(),
{
    if s.len() > 0 {
        let init = s.drop_last();
        lemma_max_of(init);
        if init.len() > 0 {
            let k = choose|k: int| 0 <= k < init.len() && init[k] == max_of(init);
            assert(s[k] == init[k]);
        }
        assert(s[s.len() - 1] == s.last());
        assert forall|i: int| 0 <= i < s.len() implies s[i] <= max_of(s) by {
            if i < init.len() {
                assert(init[i] == s[i]);
            }
        }
    }
}

/// `min_of` is the smallest value above 1, and nothing else is.
pub proof fn lemma_min_of(s: Seq<usize>)
    ensures
        is_smallest_above_one(s, min_of(s)),
        forall|m: usize| is_smallest_above_one(s, m) ==> m == min_of(s),
    decreases s.len(),
{
    if s.len() > 0 {
        let init = s.drop_last();
        let x = s.last();
        let rest = min_of(init);
        lemma_min_of(init);
        assert(s[s.len() - 1] == x);
        assert forall|i: int| 0 <= i < init.len() implies init[i] == s[i] by {}
        let some_in_init = exists|i: int| 0 <= i < init.len() && counts_for_min(init[i]);
        if some_in_init {
            let k = choose|k: int| 0 <= k < init.len() && init[k] == rest;
            assert(s[k] == rest);
            let w = choose|i: int| 0 <= i < init.len() && counts_for_min(init[i]);
            assert(counts_for_min(s[w]));
        }
        if counts_for_min(x) {
            assert(counts_for_min(s[s.len() - 1]));
        }
        if exists|i: int| 0 <= i < s.len() && counts_for_min(s[i]) {
            let m = min_of(s);
            assert forall|i: int| 0 <= i < s.len() && counts_for_min(s[i]) implies m <= s[i] by {
                if i < init.len() {
                    assert(counts_for_min(init[i]));
                }
            }
        } else {
            assert(!counts_for_min(x));
            assert(!some_in_init) by {
                if some_in_init {
                    let w = choose|i: int| 0 <= i < init.len() && counts_for_min(init[i]);
                    assert(counts_for_min(s[w]));
                }
            }
        }
    }
}

/// The order of the median is a total order.
pub proof fn lemma_at_most_is_total()
    ensures
        total_ordering(at_most()),
{
}

/// An ascending sequence is one that vstd calls sorted by `at_most`.
pub proof fn lemma_ascending_is_sorted_by(s: Seq<usize>)
    ensures
        ascending(s) <==> sorted_by(s, at_most()),
{
    if sorted_by(s, at_most()) {
        assert forall|i: int, j: int| 0 <= i <= j < s.len() implies s[i] <= s[j] by {
            if i < j {
                assert(at_most()(s[i], s[j]));
            }
        }
    }
}

/// `sorted(s)` is ascending and holds the values of `s`, each as often as `s`
/// does.
pub proof fn lemma_sorted(s: Seq<usize>)
    ensures
        ascending(sorted(s)),
        sorted(s).to_multiset() == s.to_multiset(),
        sorted(s).len() == s.len(),
{
    lemma_at_most_is_total();
    s.lemma_sort_by_ensures(at_most());
    lemma_ascending_is_sorted_by(sorted(s));
    to_multiset_len(s);
    to_multiset_len(sorted(s));
}

/// An ascending sequence with the values of `s` is `sorted(s)`.
pub proof fn lemma_sorted_is_unique(s: Seq<usize>, t: Seq<usize>)
    requires
        ascending(t),
        t.to_multiset() == s.to_multiset(),
    ensures
        t == sorted(s),
{
    lemma_sorted(s);
    lemma_at_most_is_total();
    lemma_ascending_is_sorted_by(t);
    lemma_ascending_is_sorted_by(sorted(s));
    lemma_sorted_unique(t, sorted(s), at_most());
}

} // verus!
