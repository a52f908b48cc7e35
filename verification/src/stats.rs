//! The statistics of a sequence of line lengths, computed exactly.

use vstd::prelude::*;

use crate::measures::{
    by_square, by_value, checked_variance_of, figures_of, lemma_sorted, max_of, median_twice_of,
    min_of, sum_squares_of, total_of,
};
use crate::sorting::sorted_copy;
use crate::sums::{lemma_weighted_sum_bounds, lemma_weighted_sum_prefix};
use crate::variance::lemma_scaled_variance_nonnegative;

verus! {

/// The largest value of `v`, 0 where `v` is empty.
pub fn largest(v: &Vec<usize>) -> (m: usize)
    ensures
        m == max_of(v@),
{
    let mut m: usize = 0;
    let mut i: usize = 0;
    while i < v.len()
        invariant
            i <= v.len(),
            m == max_of(v@.take(i as int)),
        decreases v.len() - i,
    {
        proof {
            assert(v@.take(i + 1).drop_last() == v@.take(i as int));
        }
        if v[i] >= m {
            m = v[i];
        }
        i += 1;
    }
    proof {
        assert(v@.take(i as int) == v@);
    }
    m
}

/// The smallest value of `v` among those above 1, 0 where there is none.
pub fn smallest_above_one(v: &Vec<usize>) -> (m: usize)
    ensures
        m == min_of(v@),
{
    let mut m: usize = 0;
    let mut i: usize = 0;
    while i < v.len()
        invariant
            i <= v.len(),
            m == min_of(v@.take(i as int)),
        decreases v.len() - i,
    {
        proof {
            assert(v@.take(i + 1).drop_last() == v@.take(i as int));
        }
        let x: usize = v[i];
        if x > 1 && (m == 0 || x < m) {
            m = x;
        }
        i += 1;
    }
    proof {
        assert(v@.take(i as int) == v@);
    }
    m
}

/// The sum of the values of `v`.
pub fn total(v: &Vec<usize>) -> (t: u128)
    ensures
        t == total_of(v@),
{
    let mut t: u128 = 0;
    let mut i: usize = 0;
    while i < v.len()
        invariant
            i <= v.len(),
            t == total_of(v@.take(i as int)),
        decreases v.len() - i,
    {
        proof {
            let next = v@.take(i + 1);
            assert(next.drop_last() == v@.take(i as int));
            assert(next.last() == v[i as int]);
            assert forall|k: int| 0 <= k < next.len() implies 0 <= #[trigger] by_value()(next[k])
                <= 0xffff_ffff_ffff_ffff by {}
            lemma_weighted_sum_bounds(next, by_value(), 0, 0xffff_ffff_ffff_ffff);
            assert(next.len() * 0xffff_ffff_ffff_ffff <= 0xffff_ffff_ffff_ffff
                * 0xffff_ffff_ffff_ffff) by (nonlinear_arith)
                requires
                    next.len() <= 0xffff_ffff_ffff_ffff,
            ;
        }
        t = t + v[i] as u128;
        i += 1;
    }
    proof {
        assert(v@.take(i as int) == v@);
    }
    t
}

/// Twice the median of `v`: twice the middle value in ascending order where
/// the length is odd, the sum of the two middle values where it is even.
pub fn median_twice(v: &Vec<usize>) -> (m: u128)
    ensures
        m == median_twice_of(v@),
{
    let n: usize = v.len();
    if n == 0 {
        return 0;
    }
    let t = sorted_copy(v);
    proof {
        lemma_sorted(v@);
    }
    let mid: usize = n / 2;
    if n % 2 == 1 {
        2 * (t[mid] as u128)
    } else {
        t[mid - 1] as u128 + t[mid] as u128
    }
}

/// The population variance of `v` multiplied by the square of its length,
/// or `None` where the length times the sum of squares does not fit in 128
/// bits.
pub fn scaled_variance(v: &Vec<usize>) -> (r: Option<u128>)
    ensures
        r == checked_variance_of(v@),
{
    let n: usize = v.len();
    let mut squares: u128 = 0;
    let mut i: usize = 0;
    while i < n
        invariant
            n == v.len(),
            i <= n,
            squares == sum_squares_of(v@.take(i as int)),
        decreases n - i,
    {
        let x: u128 = v[i] as u128;
        assert(x * x <= u128::MAX) by (nonlinear_arith)
            requires
                x <= 0xffff_ffff_ffff_ffff,
        ;
        proof {
            let next = v@.take(i + 1);
            assert(next.drop_last() == v@.take(i as int));
            assert(next.last() == v[i as int]);
            assert(sum_squares_of(next) == squares + x * x);
        }
        match squares.checked_add(x * x) {
            Some(more) => {
                squares = more;
            },
            None => {
                proof {
                    let q = sum_squares_of(v@);
                    assert forall|y: usize| 0 <= #[trigger] by_square()(y) by {
                        assert(0 <= y * y) by (nonlinear_arith);
                    }
                    lemma_weighted_sum_prefix(v@, i + 1, by_square());
                    assert(q <= n * q) by (nonlinear_arith)
                        requires
                            n >= 1,
                            q >= 0,
                    ;
                }
                return None;
            },
        }
        i += 1;
    }
    proof {
        assert(v@.take(i as int) == v@);
    }
    match (n as u128).checked_mul(squares) {
        None => None,
        Some(product) => {
            let t: u128 = total(v);
            proof {
                lemma_scaled_variance_nonnegative(v@);
            }
            Some(product - t * t)
        },
    }
}

/// The line lengths of a file, or of a whole tree, with their statistics.
///
/// Mean, median and standard deviation are held exactly, as integers:
/// the mean is `total / lines.len()`, the median is `median_twice / 2`, and
/// the population standard deviation is the square root of
/// `scaled_variance`, divided by `lines.len()`.
#[derive(Debug)]
pub struct Stats {
    /// The line lengths, in the order of the lines.
    pub lines: Vec<usize>,
    /// The largest length.
    pub max: usize,
    /// The smallest length among those above 1, 0 where there is none.
    pub min: usize,
    /// The sum of the lengths.
    pub total: u128,
    /// Twice the median length.
    pub median_twice: u128,
    /// The population variance multiplied by the square of the number of
    /// lines; `None` where the number of lines times the sum of the squared
    /// lengths does not fit in 128 bits.
    pub scaled_variance: Option<u128>,
}

impl Stats {
    /// The fields other than `lines` are the figures of `lines`.
    pub open spec fn wf(&self) -> bool {
        let figures = figures_of(self.lines@);
        &&& self.max == figures.max
        &&& self.min == figures.min
        &&& self.total == figures.total
        &&& self.median_twice == figures.median_twice
        &&& self.scaled_variance == checked_variance_of(self.lines@)
    }

    /// `self` and `other` have the same figures: they differ in `lines` at
    /// most.
    pub open spec fn same_figures(&self, other: &Stats) -> bool {
        &&& self.max == other.max
        &&& self.min == other.min
        &&& self.total == other.total
        &&& self.median_twice == other.median_twice
        &&& self.scaled_variance == other.scaled_variance
    }

    /// The statistics of the line lengths `list`.
    pub open spec fn of(list: Vec<usize>) -> Stats {
        Stats {
            lines: list,
            max: max_of(list@),
            min: min_of(list@),
            total: total_of(list@) as u128,
            median_twice: median_twice_of(list@) as u128,
            scaled_variance: checked_variance_of(list@),
        }
    }
}

impl vstd::std_specs::convert::FromSpecImpl<Vec<usize>> for Stats {
    open spec fn obeys_from_spec() -> bool {
        true
    }

    open spec fn from_spec(list: Vec<usize>) -> Stats {
        Stats::of(list)
    }
}

impl From<Vec<usize>> for Stats {
    /// Computes the statistics of the line lengths `list`.
    fn from(list: Vec<usize>) -> (stats: Stats)
        ensures
            stats == Stats::of(list),
            stats.lines == list,
            stats.wf(),
    {
        let max: usize = largest(&list);
        let min: usize = smallest_above_one(&list);
        let total: u128 = total(&list);
        let median_twice: u128 = median_twice(&list);
        let scaled_variance: Option<u128> = scaled_variance(&list);
        Stats { lines: list, max, min, total, median_twice, scaled_variance }
    }
}

impl Default for Stats {
    /// The statistics of no lines at all: every figure is 0.
    fn default() -> (stats: Stats)
        ensures
            stats.lines@ == Seq::<usize>::empty(),
            stats.max == 0,
            stats.min == 0,
            stats.total == 0,
            stats.median_twice == 0,
            stats.scaled_variance == Some(0u128),
            stats.wf(),
    {
        let stats = Stats {
            lines: Vec::new(),
            max: 0,
            min: 0,
            total: 0,
            median_twice: 0,
            scaled_variance: Some(0),
        };
        proof {
            assert(total_of(stats.lines@) == 0);
            assert(sum_squares_of(stats.lines@) == 0);
        }
        stats
    }
}

} // verus!
