//! What holds of the figures whatever the line lengths are.

use vstd::prelude::*;
use vstd::seq_lib::{to_multiset_contains, to_multiset_len};

use crate::measures::{
    ascending, by_shortness, by_square, by_value, checked_variance_of, counts_for_min,
    figures_of, is_largest,
    is_smallest_above_one, lemma_max_of, lemma_min_of, lemma_sorted, lemma_sorted_is_unique,
    max_of, median_twice_of, min_of, short_count, sorted,
};
use crate::stats::Stats;
use crate::variance::lemma_identical_values_have_no_variance;
use crate::sums::{
    lemma_weighted_sum_bounds, lemma_weighted_sum_concat, lemma_weighted_sum_permutation,
};

verus! {

/// Two sequences with the same values, each as often in the one as in the
/// other, hold the same values.
pub(crate) proof fn lemma_same_values(a: Seq<usize>, b: Seq<usize>)
    requires
        a.to_multiset() == b.to_multiset(),
    ensures
        a.len() == b.len(),
        forall|x: usize| a.contains(x) <==> b.contains(x),
        forall|i: int| 0 <= i < a.len() ==> b.contains(#[trigger] a[i]),
        forall|i: int| 0 <= i < b.len() ==> a.contains(#[trigger] b[i]),
{
    to_multiset_len(a);
    to_multiset_len(b);
    assert forall|x: usize| a.contains(x) <==> b.contains(x) by {
        to_multiset_contains(a, x);
        to_multiset_contains(b, x);
    }
    assert forall|i: int| 0 <= i < a.len() implies b.contains(#[trigger] a[i]) by {
        assert(a.contains(a[i]));
    }
    assert forall|i: int| 0 <= i < b.len() implies a.contains(#[trigger] b[i]) by {
        assert(b.contains(b[i]));
    }
}

/// The figures of a sequence do not depend on the order of its values.
pub proof fn lemma_figures_ignore_order(a: Seq<usize>, b: Seq<usize>)
    requires
        a.to_multiset() == b.to_multiset(),
    ensures
        figures_of(a) == figures_of(b),
        checked_variance_of(a) == checked_variance_of(b),
{
    lemma_same_values(a, b);
    assert(max_of(a) == max_of(b)) by {
        lemma_max_of(a);
        lemma_max_of(b);
        let m = max_of(a);
        if a.len() > 0 {
            assert forall|i: int| 0 <= i < b.len() implies b[i] <= m by {
                assert(a.contains(b[i]));
            }
        }
        assert(is_largest(b, m));
    }
    assert(min_of(a) == min_of(b)) by {
        lemma_min_of(a);
        lemma_min_of(b);
        let m = min_of(a);
        if exists|i: int| 0 <= i < a.len() && counts_for_min(a[i]) {
            let w = choose|i: int| 0 <= i < a.len() && counts_for_min(a[i]);
            assert(b.contains(a[w]));
            assert forall|i: int| 0 <= i < b.len() && counts_for_min(b[i]) implies m <= b[i] by {
                assert(a.contains(b[i]));
            }
        } else {
            if exists|i: int| 0 <= i < b.len() && counts_for_min(b[i]) {
                let w = choose|i: int| 0 <= i < b.len() && counts_for_min(b[i]);
                assert(a.contains(b[w]));
            }
        }
        assert(is_smallest_above_one(b, m));
    }
    lemma_weighted_sum_permutation(a, b, by_value());
    lemma_weighted_sum_permutation(a, b, by_square());
    assert(sorted(a) == sorted(b)) by {
        lemma_sorted(a);
        lemma_sorted_is_unique(b, sorted(a));
    }
}

/// Statistics of the same line lengths in another order have the same
/// figures.
pub proof fn lemma_stats_ignore_order(a: Stats, b: Stats)
    requires
        a.wf(),
        b.wf(),
        a.lines@.to_multiset() == b.lines@.to_multiset(),
    ensures
        a.same_figures(&b),
{
    lemma_figures_ignore_order(a.lines@, b.lines@);
}

/// In an ascending sequence the values below 2 come first: a value below 2
/// at `i` means that more than `i` values are below 2, and a value of 2 or
/// more at `i` means that at most `i` are.
proof fn lemma_short_values_come_first(t: Seq<usize>, i: int)
    requires
        ascending(t),
        0 <= i < t.len(),
    ensures
        0 <= short_count(t) <= t.len(),
        t[i] < 2 ==> short_count(t) >= i + 1,
        t[i] >= 2 ==> short_count(t) <= i,
{
    let w = by_shortness();
    assert forall|k: int| 0 <= k < t.len() implies 0 <= #[trigger] w(t[k]) <= 1 by {}
    lemma_weighted_sum_bounds(t, w, 0, 1);
    if t[i] < 2 {
        let head = t.take(i + 1);
        let tail = t.skip(i + 1);
        assert(t == head + tail);
        lemma_weighted_sum_concat(head, tail, w);
        assert forall|k: int| 0 <= k < head.len() implies 1 <= #[trigger] w(head[k]) <= 1 by {
            assert(head[k] == t[k]);
            assert(t[k] <= t[i]);
        }
        lemma_weighted_sum_bounds(head, w, 1, 1);
        assert forall|k: int| 0 <= k < tail.len() implies 0 <= #[trigger] w(tail[k]) <= 1 by {}
        lemma_weighted_sum_bounds(tail, w, 0, 1);
    } else {
        let head = t.take(i);
        let tail = t.skip(i);
        assert(t == head + tail);
        lemma_weighted_sum_concat(head, tail, w);
        assert forall|k: int| 0 <= k < head.len() implies 0 <= #[trigger] w(head[k]) <= 1 by {}
        lemma_weighted_sum_bounds(head, w, 0, 1);
        assert forall|k: int| 0 <= k < tail.len() implies 0 <= #[trigger] w(tail[k]) <= 0 by {
            assert(tail[k] == t[i + k]);
            assert(t[i] <= t[i + k]);
        }
        lemma_weighted_sum_bounds(tail, w, 0, 0);
    }
}

/// Where `s` holds a value above 1, the minimum is the value of `sorted(s)`
/// that follows the values below 2.
proof fn lemma_min_follows_short_values(s: Seq<usize>)
    requires
        exists|i: int| 0 <= i < s.len() && counts_for_min(s[i]),
    ensures
        0 <= short_count(s) < s.len(),
        min_of(s) == sorted(s)[short_count(s)],
        min_of(s) >= 2,
        forall|i: int| 0 <= i < short_count(s) ==> sorted(s)[i] < 2,
{
    let t = sorted(s);
    let k = short_count(s);
    lemma_sorted(s);
    lemma_same_values(s, t);
    lemma_weighted_sum_permutation(s, t, by_shortness());
    let w = choose|i: int| 0 <= i < s.len() && counts_for_min(s[i]);
    assert(t.contains(s[w]));
    let j = choose|j: int| 0 <= j < t.len() && t[j] == s[w];
    lemma_short_values_come_first(t, j);
    lemma_short_values_come_first(t, k);
    assert forall|i: int| 0 <= i < k implies t[i] < 2 by {
        lemma_short_values_come_first(t, i);
    }
    assert(is_smallest_above_one(t, t[k])) by {
        assert(counts_for_min(t[k]));
        assert forall|i: int| 0 <= i < t.len() && counts_for_min(t[i]) implies t[k] <= t[i] by {
            lemma_short_values_come_first(t, i);
        }
    }
    lemma_min_of(t);
    lemma_figures_ignore_order(s, t);
}

/// The median is at most the maximum.
pub proof fn lemma_median_at_most_max(s: Seq<usize>)
    ensures
        median_twice_of(s) <= 2 * max_of(s),
{
    let t = sorted(s);
    lemma_sorted(s);
    lemma_max_of(t);
    lemma_figures_ignore_order(s, t);
}

/// The minimum, the median and the maximum stand in this order where fewer
/// than half of the values are below 2. (The minimum passes over the values
/// below 2 and the median does not: where they are half of the values or
/// more, the median lies below the minimum.)
pub proof fn lemma_min_median_max(s: Seq<usize>)
    requires
        2 * short_count(s) < s.len(),
    ensures
        2 * min_of(s) <= median_twice_of(s) <= 2 * max_of(s),
{
    let t = sorted(s);
    lemma_sorted(s);
    lemma_weighted_sum_permutation(s, t, by_shortness());
    lemma_short_values_come_first(t, 0);
    lemma_short_values_come_first(t, short_count(s));
    lemma_same_values(s, t);
    let j = choose|j: int| 0 <= j < s.len() && s[j] == t[short_count(s)];
    assert(counts_for_min(s[j]));
    lemma_min_follows_short_values(s);
    lemma_median_at_most_max(s);
}

/// Where `s` holds a value above 1 and half of its values or more are below
/// 2, the median lies below the minimum.
pub proof fn lemma_median_below_min(s: Seq<usize>)
    requires
        exists|i: int| 0 <= i < s.len() && counts_for_min(s[i]),
        2 * short_count(s) >= s.len(),
    ensures
        median_twice_of(s) < 2 * min_of(s),
{
    lemma_sorted(s);
    lemma_min_follows_short_values(s);
}

/// The minimum, the median and the maximum of statistics stand in this
/// order where fewer than half of the lines are shorter than 2.
pub proof fn lemma_stats_min_median_max(stats: Stats)
    requires
        stats.wf(),
        2 * short_count(stats.lines@) < stats.lines@.len(),
    ensures
        2 * stats.min <= stats.median_twice <= 2 * stats.max,
{
    lemma_min_median_max(stats.lines@);
}

/// Statistics of lines that all have the same length have a deviation of
/// 0, where they have one at all.
pub proof fn lemma_stats_of_identical_lines(stats: Stats)
    requires
        stats.wf(),
        forall|i: int, j: int|
            0 <= i < stats.lines@.len() && 0 <= j < stats.lines@.len() ==> stats.lines@[i]
                == stats.lines@[j],
    ensures
        stats.scaled_variance is Some ==> stats.scaled_variance == Some(0u128),
{
    lemma_identical_values_have_no_variance(stats.lines@);
}

} // verus!
