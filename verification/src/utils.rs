//! Euclidean distance over fixed-point points, and the argmin used by both
//! the clusterer and the classifier.

use vstd::prelude::*;
use crate::data::{coords_in_range, in_range};

verus! {

/// Sum of the squared coordinate differences of `a` and `b` over the first
/// `n` coordinates.
pub open spec fn dist_sq_prefix(a: Seq<i64>, b: Seq<i64>, n: nat) -> int
    decreases n,
{
    if n == 0 {
        0
    } else {
        dist_sq_prefix(a, b, (n - 1) as nat) + (a[n - 1] - b[n - 1]) * (a[n - 1] - b[n - 1])
    }
}

/// The squared Euclidean distance between two points of equal dimensionality.
pub open spec fn dist_sq(a: Seq<i64>, b: Seq<i64>) -> int {
    dist_sq_prefix(a, b, a.len())
}

/// The squared distance from each row to `p`, in row order.
pub open spec fn dists_of(rows: Seq<Seq<i64>>, p: Seq<i64>) -> Seq<int> {
    Seq::new(rows.len(), |i: int| dist_sq(rows[i], p))
}

/// The least index of a minimal entry among the first `n` entries of `s`:
/// scanning upward, a later entry wins only when strictly smaller.
pub open spec fn min_index_prefix(s: Seq<int>, n: nat) -> int
    decreases n,
{
    if n <= 1 {
        0
    } else {
        let prev = min_index_prefix(s, (n - 1) as nat);
        if s[n - 1] < s[prev] {
            n - 1
        } else {
            prev
        }
    }
}

/// The least index of a minimal entry of `s`.
pub open spec fn min_index(s: Seq<int>) -> int {
    min_index_prefix(s, s.len())
}

pub proof fn lemma_min_index_prefix(s: Seq<int>, n: nat)
    requires
        1 <= n <= s.len(),
    ensures
        0 <= min_index_prefix(s, n) < n,
        forall|j: int| 0 <= j < n ==> s[min_index_prefix(s, n)] <= #[trigger] s[j],
        forall|j: int| 0 <= j < min_index_prefix(s, n) ==> #[trigger] s[j] > s[min_index_prefix(s, n)],
    decreases n,
{
    if n > 1 {
        lemma_min_index_prefix(s, (n - 1) as nat);
    }
}

pub proof fn lemma_min_index(s: Seq<int>)
    requires
        s.len() >= 1,
    ensures
        0 <= min_index(s) < s.len(),
        forall|j: int| 0 <= j < s.len() ==> s[min_index(s)] <= #[trigger] s[j],
        forall|j: int| 0 <= j < min_index(s) ==> #[trigger] s[j] > s[min_index(s)],
{
    lemma_min_index_prefix(s, s.len());
}

pub proof fn lemma_dist_sq_prefix_nonneg(a: Seq<i64>, b: Seq<i64>, n: nat)
    ensures
        dist_sq_prefix(a, b, n) >= 0,
    decreases n,
{
    if n > 0 {
        lemma_dist_sq_prefix_nonneg(a, b, (n - 1) as nat);
        let d = a[n - 1] - b[n - 1];
        assert(d * d >= 0) by (nonlinear_arith);
    }
}

/// With all coordinates in range, each squared difference is at most
/// `4 * 10^18`, so the prefix sum is at most `n` times that.
pub proof fn lemma_dist_sq_prefix_bound(a: Seq<i64>, b: Seq<i64>, n: nat)
    requires
        n <= a.len(),
        n <= b.len(),
        coords_in_range(a),
        coords_in_range(b),
    ensures
        dist_sq_prefix(a, b, n) <= n * 4_000_000_000_000_000_000,
    decreases n,
{
    if n > 0 {
        lemma_dist_sq_prefix_bound(a, b, (n - 1) as nat);
        let d = a[n - 1] - b[n - 1];
        assert(in_range(a[n - 1]) && in_range(b[n - 1]));
        assert(d * d <= 4_000_000_000_000_000_000) by (nonlinear_arith)
            requires
                -2_000_000_000 <= d <= 2_000_000_000,
        ;
    }
}

/// A squared distance vanishes exactly on coordinatewise equality.
pub proof fn lemma_dist_sq_prefix_zero(a: Seq<i64>, b: Seq<i64>, n: nat)
    ensures
        dist_sq_prefix(a, b, n) == 0 <==> (forall|j: int| 0 <= j < n ==> a[j] == b[j]),
    decreases n,
{
    if n > 0 {
        lemma_dist_sq_prefix_zero(a, b, (n - 1) as nat);
        lemma_dist_sq_prefix_nonneg(a, b, (n - 1) as nat);
        let d = a[n - 1] - b[n - 1];
        assert(d * d >= 0 && (d * d == 0 <==> d == 0)) by (nonlinear_arith);
    }
}

/// Two points of equal dimensionality are at squared distance zero exactly
/// when they are equal.
pub proof fn lemma_dist_sq_zero(a: Seq<i64>, b: Seq<i64>)
    requires
        a.len() == b.len(),
    ensures
        dist_sq(a, b) == 0 <==> a == b,
{
    lemma_dist_sq_prefix_zero(a, b, a.len());
    if dist_sq(a, b) == 0 {
        assert(a =~= b);
    }
}

/// The squared Euclidean distance between two points of equal dimensionality.
pub fn distance_sq(a: &Vec<i64>, b: &Vec<i64>) -> (r: u128)
    requires
        a@.len() == b@.len(),
        coords_in_range(a@),
        coords_in_range(b@),
    ensures
        r as int == dist_sq(a@, b@),
{
    let n = a.len();
    let mut acc: u128 = 0;
    for j in 0..n
        invariant
            acc as int == dist_sq_prefix(a@, b@, j as nat),
            acc <= (j as int) * 4_000_000_000_000_000_000,
    {
        let d: i128 = (a[j] as i128) - (b[j] as i128);
        proof {
            assert(in_range(a@[j as int]) && in_range(b@[j as int]));
            assert(0 <= d * d <= 4_000_000_000_000_000_000) by (nonlinear_arith)
                requires
                    -2_000_000_000 <= d <= 2_000_000_000,
            ;
        }
        let sq: i128 = d * d;
        acc = acc + (sq as u128);
    }
    acc
}

/// The greatest `r` with `r * r <= d`.
fn isqrt_u128(d: u128) -> (r: u128)
    ensures
        (r as int) * (r as int) <= d as int,
        (r as int + 1) * (r as int + 1) > d as int,
{
    let mut lo: u128 = 0;
    let mut hi: u128 = 0x1_0000_0000_0000_0000;
    proof {
        assert((hi as int) * (hi as int) > d as int) by (nonlinear_arith)
            requires
                hi == 0x1_0000_0000_0000_0000u128 && d <= u128::MAX,
        ;
    }
    while lo + 1 < hi
        invariant
            lo < hi,
            hi <= 0x1_0000_0000_0000_0000,
            (lo as int) * (lo as int) <= d as int,
            (hi as int) * (hi as int) > d as int,
        decreases hi - lo,
    {
        let mid = lo + (hi - lo) / 2;
        proof {
            assert((mid as int) * (mid as int) <= 0xffff_ffff_ffff_ffff_ffff_ffff_ffff_ffffu128)
                by (nonlinear_arith)
                requires
                    0 <= mid <= 0xffff_ffff_ffff_ffffu128,
            ;
        }
        let sq: u128 = mid * mid;
        if sq <= d {
            lo = mid;
        } else {
            hi = mid;
        }
    }
    lo
}

/// The Euclidean distance between two points, rounded down to an integer in
/// the same fixed-point units as the coordinates: the floor of the square
/// root of the squared distance.
pub fn euclidean_distance(point1: &Vec<i64>, point2: &Vec<i64>) -> (r: u128)
    requires
        point1@.len() == point2@.len(),
        coords_in_range(point1@),
        coords_in_range(point2@),
    ensures
        (r as int) * (r as int) <= dist_sq(point1@, point2@),
        (r as int + 1) * (r as int + 1) > dist_sq(point1@, point2@),
{
    let d = distance_sq(point1, point2);
    isqrt_u128(d)
}

} // verus!
