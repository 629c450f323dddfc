//! Binary searches over sorted integer slices.
//!
//! Every sweep of the pipeline maps a time interval to a contiguous range of
//! grid indices through these two searches.

use vstd::prelude::*;

verus! {

/// The sequence is sorted in non-decreasing order.
pub open spec fn sorted_le(s: Seq<i64>) -> bool {
    forall|i: int, j: int| 0 <= i <= j < s.len() ==> s[i] <= s[j]
}

/// The sequence is sorted in strictly increasing order.
pub open spec fn sorted_lt(s: Seq<i64>) -> bool {
    forall|i: int, j: int| 0 <= i < j < s.len() ==> s[i] < s[j]
}

/// First index whose element is `>= x`; `xs.len()` if there is none.
pub fn lower_bound(xs: &[i64], x: i64) -> (r: usize)
    requires
        sorted_le(xs@),
    ensures
        r <= xs@.len(),
        forall|j: int| 0 <= j < r ==> xs@[j] < x,
        forall|j: int| r <= j < xs@.len() ==> xs@[j] >= x,
{
    let mut lo: usize = 0;
    let mut hi: usize = xs.len();
    while lo < hi
        invariant
            lo <= hi <= xs@.len(),
            sorted_le(xs@),
            forall|j: int| 0 <= j < lo ==> xs@[j] < x,
            forall|j: int| hi <= j < xs@.len() ==> xs@[j] >= x,
        decreases hi - lo,
    {
        let mid = lo + (hi - lo) / 2;
        if xs[mid] < x {
            lo = mid + 1;
        } else {
            hi = mid;
        }
    }
    lo
}

/// First index whose element is `> x`; `xs.len()` if there is none.
pub fn upper_bound(xs: &[i64], x: i64) -> (r: usize)
    requires
        sorted_le(xs@),
    ensures
        r <= xs@.len(),
        forall|j: int| 0 <= j < r ==> xs@[j] <= x,
        forall|j: int| r <= j < xs@.len() ==> xs@[j] > x,
{
    let mut lo: usize = 0;
    let mut hi: usize = xs.len();
    while lo < hi
        invariant
            lo <= hi <= xs@.len(),
            sorted_le(xs@),
            forall|j: int| 0 <= j < lo ==> xs@[j] <= x,
            forall|j: int| hi <= j < xs@.len() ==> xs@[j] > x,
        decreases hi - lo,
    {
        let mid = lo + (hi - lo) / 2;
        if xs[mid] <= x {
            lo = mid + 1;
        } else {
            hi = mid;
        }
    }
    lo
}

/// Inserts `x` into the sorted, duplicate-free vector `v`, keeping it
/// sorted and duplicate-free; a second insertion of a present value is a
/// no-op.
#[verifier::spinoff_prover]
pub fn insert_sorted_unique(v: &mut Vec<i64>, x: i64)
    requires
        sorted_lt(old(v)@),
    ensures
        sorted_lt(final(v)@),
        forall|y: i64| final(v)@.contains(y) ==> (old(v)@.contains(y) || y == x),
        forall|y: i64| old(v)@.contains(y) ==> final(v)@.contains(y),
        final(v)@.contains(x),
{
    let i = lower_bound(v.as_slice(), x);
    if i < v.len() && v[i] == x {
        assert(v@[i as int] == x);
        assert(final(v)@ == v@);
        assert(final(v)@[i as int] == x);
        assert(final(v)@.contains(x));
        return;
    } else {
        let ghost oldv = v@;
        v.insert(i, x);
        assert forall|y: i64| v@.contains(y) implies (oldv.contains(y) || y == x) by {
            let j = choose|j: int| 0 <= j < v@.len() && v@[j] == y;
            if j < i {
                assert(oldv[j] == y);
            } else if j > i {
                assert(oldv[j - 1] == y);
            }
        }
        assert forall|y: i64| (oldv.contains(y) || y == x) implies v@.contains(y) by {
            if y == x {
                assert(v@[i as int] == x);
            } else {
                let j = choose|j: int| 0 <= j < oldv.len() && oldv[j] == y;
                if j < i {
                    assert(v@[j] == y);
                } else {
                    assert(v@[j + 1] == y);
                }
            }
        }
        assert forall|p: int, q: int| 0 <= p < q < v@.len() implies v@[p] < v@[q] by {
            if p < i && q == i {
                assert(oldv[p] < x);
            } else if p == i && q > i {
                assert(oldv[q - 1] >= x);
                assert(oldv[q - 1] != x);
            } else if p < i && q > i {
                assert(oldv[p] == v@[p] && oldv[q - 1] == v@[q]);
            } else if p > i {
                assert(oldv[p - 1] < oldv[q - 1]);
            }
        }
        assert(final(v)@ == v@);
        assert(final(v)@.contains(x)) by {
            assert(final(v)@[i as int] == x);
        }
    }
}

/// Two strictly increasing sequences with the same elements are the same
/// sequence: a sorted, duplicate-free collection is determined by its
/// membership alone.
pub proof fn lemma_sorted_unique_same_elements(s1: Seq<i64>, s2: Seq<i64>)
    requires
        sorted_lt(s1),
        sorted_lt(s2),
        forall|y: i64| s1.contains(y) <==> s2.contains(y),
    ensures
        s1 == s2,
    decreases s1.len(),
{
    if s1.len() == 0 {
        if s2.len() > 0 {
            assert(s2.contains(s2[0]));
            assert(s1.contains(s2[0]));
        }
        assert(s1 =~= s2);
    } else {
        assert(s1.contains(s1[0]));
        assert(s2.contains(s1[0]));
        let j = choose|j: int| 0 <= j < s2.len() && s2[j] == s1[0];
        assert(s2.contains(s2[0]));
        assert(s1.contains(s2[0]));
        let i0 = choose|i: int| 0 <= i < s1.len() && s1[i] == s2[0];
        assert(s2[0] <= s2[j]);
        assert(s1[0] <= s1[i0]);
        assert(s1[0] == s2[0]);

        let t1 = s1.drop_first();
        let t2 = s2.drop_first();
        assert(sorted_lt(t1)) by {
            assert(forall|p: int, q: int| 0 <= p < q < t1.len()
                ==> t1[p] == s1[p + 1] && t1[q] == s1[q + 1]);
        }
        assert(sorted_lt(t2)) by {
            assert(forall|p: int, q: int| 0 <= p < q < t2.len()
                ==> t2[p] == s2[p + 1] && t2[q] == s2[q + 1]);
        }
        assert forall|y: i64| t1.contains(y) <==> (s1.contains(y) && y != s1[0]) by {
            if t1.contains(y) {
                let m = choose|m: int| 0 <= m < t1.len() && t1[m] == y;
                assert(s1[m + 1] == y);
                assert(s1[0] < s1[m + 1]);
            }
            if s1.contains(y) && y != s1[0] {
                let m = choose|m: int| 0 <= m < s1.len() && s1[m] == y;
                assert(m >= 1);
                assert(t1[m - 1] == y);
            }
        }
        assert forall|y: i64| t2.contains(y) <==> (s2.contains(y) && y != s2[0]) by {
            if t2.contains(y) {
                let m = choose|m: int| 0 <= m < t2.len() && t2[m] == y;
                assert(s2[m + 1] == y);
                assert(s2[0] < s2[m + 1]);
            }
            if s2.contains(y) && y != s2[0] {
                let m = choose|m: int| 0 <= m < s2.len() && s2[m] == y;
                assert(m >= 1);
                assert(t2[m - 1] == y);
            }
        }
        lemma_sorted_unique_same_elements(t1, t2);
        assert(s1 =~= s2) by {
            assert(s1.len() == t1.len() + 1 && s2.len() == t2.len() + 1);
            assert(forall|k: int| 1 <= k < s1.len() ==> s1[k] == t1[k - 1] && s2[k] == t2[k - 1]);
        }
    }
}

} // verus!
