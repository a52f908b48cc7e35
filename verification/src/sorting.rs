//! Sorting line lengths: a merge sort, proved to return `sorted`.

use vstd::prelude::*;
use vstd::seq_lib::{lemma_multiset_commutative, to_multiset_build};

use crate::measures::{ascending, lemma_sorted_is_unique, sorted};

verus! {

/// Merges two ascending vectors into one.
fn merge(a: &Vec<usize>, b: &Vec<usize>) -> (r: Vec<usize>)
    requires
        ascending(a@),
        ascending(b@),
        a.len() + b.len() <= usize::MAX,
    ensures
        ascending(r@),
        r@.to_multiset() == (a@ + b@).to_multiset(),
        r.len() == a.len() + b.len(),
{
    let mut r: Vec<usize> = Vec::with_capacity(a.len() + b.len());
    let mut i: usize = 0;
    let mut j: usize = 0;
    proof {
        assert(a@.take(0) == Seq::<usize>::empty());
        assert(b@.take(0) == Seq::<usize>::empty());
        assert(r@ == a@.take(0) + b@.take(0));
    }
    while i < a.len() || j < b.len()
        invariant
            i <= a.len(),
            j <= b.len(),
            a.len() + b.len() <= usize::MAX,
            r.len() == i + j,
            ascending(a@),
            ascending(b@),
            ascending(r@),
            r@.to_multiset() == (a@.take(i as int) + b@.take(j as int)).to_multiset(),
            forall|k: int| 0 <= k < r.len() && i < a.len() ==> r[k] <= a[i as int],
            forall|k: int| 0 <= k < r.len() && j < b.len() ==> r[k] <= b[j as int],
        decreases a.len() - i + b.len() - j,
    {
        let from_a: bool = if i == a.len() {
            false
        } else if j == b.len() {
            true
        } else {
            a[i] <= b[j]
        };
        let ghost before = r@;
        if from_a {
            let x: usize = a[i];
            r.push(x);
            proof {
                let head = a@.take(i as int);
                let other = b@.take(j as int);
                assert(a@.take(i + 1) == head.push(x));
                to_multiset_build(before, x);
                to_multiset_build(head, x);
                lemma_multiset_commutative(head, other);
                lemma_multiset_commutative(head.push(x), other);
                assert(r@.to_multiset() =~= (a@.take(i + 1) + other).to_multiset());
            }
            i += 1;
        } else {
            let x: usize = b[j];
            r.push(x);
            proof {
                let head = a@.take(i as int);
                let other = b@.take(j as int);
                assert(b@.take(j + 1) == other.push(x));
                to_multiset_build(before, x);
                assert(head + other.push(x) == (head + other).push(x));
                to_multiset_build(head + other, x);
            }
            j += 1;
        }
    }
    proof {
        assert(a@.take(i as int) == a@);
        assert(b@.take(j as int) == b@);
    }
    r
}

/// The values of `v` from `lo` up to `hi`, in ascending order.
fn sorted_range(v: &Vec<usize>, lo: usize, hi: usize) -> (r: Vec<usize>)
    requires
        lo <= hi <= v.len(),
    ensures
        ascending(r@),
        r@.to_multiset() == v@.subrange(lo as int, hi as int).to_multiset(),
        r.len() == hi - lo,
    decreases hi - lo,
{
    if hi - lo == 0 {
        let r: Vec<usize> = Vec::new();
        assert(r@ == v@.subrange(lo as int, hi as int));
        r
    } else if hi - lo == 1 {
        let mut r: Vec<usize> = Vec::new();
        r.push(v[lo]);
        assert(r@ == v@.subrange(lo as int, hi as int));
        r
    } else {
        let mid: usize = lo + (hi - lo) / 2;
        let left = sorted_range(v, lo, mid);
        let right = sorted_range(v, mid, hi);
        let r = merge(&left, &right);
        proof {
            let l = v@.subrange(lo as int, mid as int);
            let h = v@.subrange(mid as int, hi as int);
            assert(v@.subrange(lo as int, hi as int) == l + h);
            lemma_multiset_commutative(left@, right@);
            lemma_multiset_commutative(l, h);
        }
        r
    }
}

/// A copy of `v` in ascending order.
pub fn sorted_copy(v: &Vec<usize>) -> (r: Vec<usize>)
    ensures
        r@ == sorted(v@),
{
    let r = sorted_range(v, 0, v.len());
    proof {
        assert(v@.subrange(0, v.len() as int) == v@);
        lemma_sorted_is_unique(v@, r@);
    }
    r
}

} // verus!
