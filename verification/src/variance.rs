//! Lemmas on the scaled variance.

use vstd::prelude::*;

use crate::measures::{
    by_distance, by_square, by_value, checked_variance_of, scaled_variance_of,
    squared_distances_of, sum_squares_of, total_of, weighted_sum,
};
use crate::sums::{lemma_weighted_sum_bounds, lemma_weighted_sum_nonnegative};

verus! {

/// The squared distances between `n * x` and `t`, summed over `s`, written
/// out in the sum of squares and the total of `s`.
proof fn lemma_distances_expand(s: Seq<usize>, n: int, t: int)
    ensures
        weighted_sum(s, by_distance(n, t)) == n * n * sum_squares_of(s) - 2 * n * t * total_of(s)
            + s.len() * t * t,
    decreases s.len(),
{
    if s.len() > 0 {
        let init = s.drop_last();
        let x = s.last() as int;
        lemma_distances_expand(init, n, t);
        let q = sum_squares_of(init);
        let u = total_of(init);
        let k = init.len() as int;
        assert(sum_squares_of(s) == q + x * x);
        assert(total_of(s) == u + x);
        assert(by_distance(n, t)(s.last()) == (n * x - t) * (n * x - t));
        assert(n * n * (q + x * x) - 2 * n * t * (u + x) + (k + 1) * t * t == (n * n * q - 2 * n
            * t * u + k * t * t) + (n * x - t) * (n * x - t)) by (nonlinear_arith);
    }
}

/// The scaled variance is a sum of squared distances from the mean: with `n`
/// the length of `s`, `n` times the scaled variance is the sum of
/// `(n * x - total)^2` over the values `x` of `s`.
pub proof fn lemma_scaled_variance_is_squared_distance(s: Seq<usize>)
    ensures
        s.len() * scaled_variance_of(s) == squared_distances_of(s),
{
    let n = s.len() as int;
    let t = total_of(s);
    let q = sum_squares_of(s);
    lemma_distances_expand(s, n, t);
    assert(n * (n * q - t * t) == n * n * q - 2 * n * t * t + n * t * t) by (nonlinear_arith);
}

/// The scaled variance is never negative: the square of the total is at most
/// the length times the sum of squares.
pub proof fn lemma_scaled_variance_nonnegative(s: Seq<usize>)
    ensures
        0 <= scaled_variance_of(s),
        total_of(s) * total_of(s) <= s.len() * sum_squares_of(s),
{
    let n = s.len() as int;
    let v = scaled_variance_of(s);
    if n == 0 {
        assert(total_of(s) == 0);
        assert(sum_squares_of(s) == 0);
    } else {
        lemma_scaled_variance_is_squared_distance(s);
        assert forall|x: usize| 0 <= #[trigger] by_distance(n, total_of(s))(x) by {
            let d = n * x - total_of(s);
            assert(0 <= d * d) by (nonlinear_arith);
        }
        lemma_weighted_sum_nonnegative(s, by_distance(n, total_of(s)));
        assert(0 <= v) by (nonlinear_arith)
            requires
                0 <= n * v,
                n > 0,
        ;
    }
}

/// The scaled variance fits in 128 bits where there are at most 2^32 values
/// and each is below 2^32.
pub proof fn lemma_scaled_variance_fits(s: Seq<usize>)
    requires
        s.len() <= 0x1_0000_0000,
        forall|i: int| 0 <= i < s.len() ==> s[i] < 0x1_0000_0000,
    ensures
        checked_variance_of(s) is Some,
        checked_variance_of(s) == Some(scaled_variance_of(s) as u128),
{
    let n = s.len() as int;
    let top: int = 0xffff_ffffint * 0xffff_ffffint;
    assert forall|i: int| 0 <= i < s.len() implies 0 <= #[trigger] by_square()(s[i]) <= top by {
        let x = s[i] as int;
        assert(0 <= x * x <= 0xffff_ffff * 0xffff_ffff) by (nonlinear_arith)
            requires
                0 <= x <= 0xffff_ffff,
        ;
    }
    lemma_weighted_sum_bounds(s, by_square(), 0, top);
    let q = sum_squares_of(s);
    assert(n * q <= 0x1_0000_0000 * (0x1_0000_0000 * top)) by (nonlinear_arith)
        requires
            0 <= n <= 0x1_0000_0000,
            0 <= q <= n * top,
            top >= 0,
    ;
    assert(0x1_0000_0000 * (0x1_0000_0000 * top) <= u128::MAX) by (nonlinear_arith)
        requires
            top == 0xffff_ffff * 0xffff_ffff,
    ;
}

/// Where all values of `s` are the same, the scaled variance is 0, and so is
/// the standard deviation.
pub proof fn lemma_identical_values_have_no_variance(s: Seq<usize>)
    requires
        forall|i: int, j: int| 0 <= i < s.len() && 0 <= j < s.len() ==> s[i] == s[j],
    ensures
        scaled_variance_of(s) == 0,
{
    let n = s.len() as int;
    if n == 0 {
        assert(total_of(s) == 0);
        assert(sum_squares_of(s) == 0);
    } else {
        let c = s[0] as int;
        assert forall|i: int| 0 <= i < s.len() implies c <= #[trigger] by_value()(s[i]) <= c by {
            assert(s[i] == s[0]);
        }
        lemma_weighted_sum_bounds(s, by_value(), c, c);
        assert forall|i: int| 0 <= i < s.len() implies c * c <= #[trigger] by_square()(s[i]) <= c
            * c by {
            assert(s[i] == s[0]);
        }
        lemma_weighted_sum_bounds(s, by_square(), c * c, c * c);
        assert(n * (n * (c * c)) - (n * c) * (n * c) == 0) by (nonlinear_arith);
    }
}

/// Where the scaled variance is 0, all values of `s` are the same.
pub proof fn lemma_no_variance_means_identical_values(s: Seq<usize>)
    requires
        scaled_variance_of(s) == 0,
    ensures
        forall|i: int, j: int| 0 <= i < s.len() && 0 <= j < s.len() ==> s[i] == s[j],
{
    let n = s.len() as int;
    let t = total_of(s);
    lemma_scaled_variance_is_squared_distance(s);
    assert(n * 0 == 0);
    assert forall|i: int| 0 <= i < s.len() implies n * s[i] == t by {
        lemma_zero_sum_has_zero_weights(s, n, t, i);
        let d = n * s[i] - t;
        assert(d == 0) by (nonlinear_arith)
            requires
                d * d == 0,
        ;
    }
    assert forall|i: int, j: int| 0 <= i < s.len() && 0 <= j < s.len() implies s[i] == s[j] by {
        let a = s[i] as int;
        let b = s[j] as int;
        assert(n * a == t);
        assert(n * b == t);
        assert(a == b) by (nonlinear_arith)
            requires
                n * a == n * b,
                n > 0,
        ;
    }
}

/// Where squared distances sum to 0, each of them is 0.
proof fn lemma_zero_sum_has_zero_weights(s: Seq<usize>, n: int, t: int, i: int)
    requires
        0 <= i < s.len(),
        weighted_sum(s, by_distance(n, t)) == 0,
    ensures
        by_distance(n, t)(s[i]) == 0,
    decreases s.len(),
{
    let w = by_distance(n, t);
    assert forall|x: usize| 0 <= #[trigger] w(x) by {
        let d = n * x - t;
        assert(0 <= d * d) by (nonlinear_arith);
    }
    lemma_weighted_sum_nonnegative(s.drop_last(), w);
    if i < s.len() - 1 {
        lemma_zero_sum_has_zero_weights(s.drop_last(), n, t, i);
    }
}

} // verus!
