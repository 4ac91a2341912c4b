//! K-Means clustering: farthest-point seeding followed by Lloyd's
//! assign-then-update refinement, over fixed-point integer coordinates.

use vstd::prelude::*;
use vstd::seq_lib::*;
use vstd::set_lib::{lemma_int_range, lemma_len_subset, set_int_range};
use vstd::arithmetic::div_mod::{
    lemma_div_is_ordered, lemma_div_multiples_vanish, lemma_div_pos_is_pos,
};
use crate::data::{
    coords_in_range, data_wf, in_range, point_wf, rows_view, Dataset, Error, COORD_LIMIT,
};
use crate::rng::{draw_uniform, seeded_pick};
use crate::utils::{dist_sq, dists_of, distance_sq, lemma_min_index, min_index, min_index_prefix};

verus! {

/// The index of the centroid nearest to `p`; on equal distances the lowest
/// index wins.
pub open spec fn nearest(cents: Seq<Seq<i64>>, p: Seq<i64>) -> int {
    min_index(dists_of(cents, p))
}

/// The centroid index the closest-centroid scan settles on: the first one at
/// minimal squared distance.
fn get_closest_centroid(point: &Vec<i64>, centroids: &Vec<Vec<i64>>) -> (r: usize)
    requires
        centroids@.len() >= 1,
        data_wf(rows_view(centroids@), point@.len() as nat),
        coords_in_range(point@),
    ensures
        r < centroids@.len(),
        r as int == nearest(rows_view(centroids@), point@),
{
    let ghost cents = rows_view(centroids@);
    let ghost ds = dists_of(cents, point@);
    let k = centroids.len();
    assert(point_wf(cents[0], point@.len() as nat));
    let mut best: usize = 0;
    let mut best_d: u128 = distance_sq(&centroids[0], point);
    for j in 1..k
        invariant
            best as int == min_index_prefix(ds, j as nat),
            best < j,
            best_d as int == ds[best as int],
    {
        assert(point_wf(cents[j as int], point@.len() as nat));
        let dj = distance_sq(&centroids[j], point);
        if dj < best_d {
            best = j;
            best_d = dj;
        }
    }
    proof {
        lemma_min_index(ds);
    }
    best
}

/// The mathematical value of a vector of row indices.
pub open spec fn idx_view(v: Seq<usize>) -> Seq<int> {
    Seq::new(v.len(), |t: int| v[t] as int)
}

/// The least squared distance from row `i` to any of the first `n` chosen
/// rows.
pub open spec fn min_dist_to_chosen(data: Seq<Seq<i64>>, chosen: Seq<int>, i: int, n: nat) -> int
    decreases n,
{
    if n <= 1 {
        dist_sq(data[i], data[chosen[0]])
    } else {
        let prev = min_dist_to_chosen(data, chosen, i, (n - 1) as nat);
        let dn = dist_sq(data[i], data[chosen[n - 1]]);
        if dn < prev {
            dn
        } else {
            prev
        }
    }
}

/// The least squared distance from row `i` to any chosen row.
pub open spec fn min_dist(data: Seq<Seq<i64>>, chosen: Seq<int>, i: int) -> int {
    min_dist_to_chosen(data, chosen, i, chosen.len())
}

/// Among the first `n` rows, the not-yet-chosen row whose least distance to
/// the chosen rows is greatest; on equal distances the earlier row is kept;
/// `-1` when each of the first `n` rows is already chosen.
pub open spec fn farthest_prefix(data: Seq<Seq<i64>>, chosen: Seq<int>, n: nat) -> int
    decreases n,
{
    if n == 0 {
        -1
    } else {
        let prev = farthest_prefix(data, chosen, (n - 1) as nat);
        if chosen.contains(n - 1) {
            prev
        } else if prev == -1 {
            n - 1
        } else if min_dist(data, chosen, n - 1) > min_dist(data, chosen, prev) {
            n - 1
        } else {
            prev
        }
    }
}

/// The row indices farthest-point seeding chooses: the supplied first pick,
/// then, `k - 1` times, the row farthest from everything chosen so far.
pub open spec fn seed_indices(data: Seq<Seq<i64>>, first: int, k: nat) -> Seq<int>
    decreases k,
{
    if k == 0 {
        Seq::empty()
    } else if k == 1 {
        seq![first]
    } else {
        let prev = seed_indices(data, first, (k - 1) as nat);
        prev.push(farthest_prefix(data, prev, data.len()))
    }
}

/// The rows the seeding chooses, as the initial centroids.
pub open spec fn seed_centroids(data: Seq<Seq<i64>>, first: int, k: nat) -> Seq<Seq<i64>> {
    Seq::new(k as nat, |t: int| data[seed_indices(data, first, k)[t]])
}

pub proof fn lemma_farthest_prefix_props(data: Seq<Seq<i64>>, chosen: Seq<int>, n: nat)
    ensures
        (farthest_prefix(data, chosen, n) == -1 <==> (forall|i: int|
            0 <= i < n ==> chosen.contains(i))),
        farthest_prefix(data, chosen, n) != -1 ==> 0 <= farthest_prefix(data, chosen, n) < n
            && !chosen.contains(farthest_prefix(data, chosen, n)),
    decreases n,
{
    if n > 0 {
        lemma_farthest_prefix_props(data, chosen, (n - 1) as nat);
    }
}

/// Fewer distinct chosen indices than rows leaves some row unchosen.
proof fn lemma_exists_unchosen(chosen: Seq<int>, n: int)
    requires
        chosen.no_duplicates(),
        forall|t: int| 0 <= t < chosen.len() ==> 0 <= #[trigger] chosen[t] < n,
        chosen.len() < n,
    ensures
        exists|i: int| 0 <= i < n && !chosen.contains(i),
{
    let s = chosen.to_set();
    chosen.unique_seq_to_set();
    lemma_int_range(0, n);
    if forall|i: int| 0 <= i < n ==> chosen.contains(i) {
        assert(set_int_range(0, n).subset_of(s)) by {
            assert(forall|i: int| set_int_range(0, n).contains(i) ==> 0 <= i < n
                && chosen.contains(i));
        }
        lemma_len_subset(set_int_range(0, n), s);
        assert(false);
    }
}

/// Seeding picks `k` distinct in-range row indices.
pub proof fn lemma_seed_indices_wf(data: Seq<Seq<i64>>, first: int, k: nat)
    requires
        0 <= first < data.len(),
        k <= data.len(),
    ensures
        seed_indices(data, first, k).len() == k,
        forall|t: int| 0 <= t < k ==> 0 <= #[trigger] seed_indices(data, first, k)[t]
            < data.len(),
        seed_indices(data, first, k).no_duplicates(),
    decreases k,
{
    if k > 1 {
        lemma_seed_indices_wf(data, first, (k - 1) as nat);
        let prev = seed_indices(data, first, (k - 1) as nat);
        lemma_exists_unchosen(prev, data.len() as int);
        lemma_farthest_prefix_props(data, prev, data.len());
        let f = farthest_prefix(data, prev, data.len());
        let cur = seed_indices(data, first, k);
        assert(cur =~= prev.push(f));
        assert(cur.no_duplicates()) by {
            assert(forall|i: int, j: int|
                0 <= i < cur.len() && 0 <= j < cur.len() && i != j ==> cur[i] != cur[j]) by {
                assert(forall|i: int| 0 <= i < prev.len() ==> cur[i] == prev[i]);
                assert(forall|i: int| 0 <= i < prev.len() && cur[i] == f ==> prev.contains(f));
            }
        }
    }
}

/// The number of rows among the first `n` whose nearest centroid is `j`.
pub open spec fn cluster_count_prefix(
    data: Seq<Seq<i64>>,
    cents: Seq<Seq<i64>>,
    j: int,
    n: nat,
) -> int
    decreases n,
{
    if n == 0 {
        0
    } else {
        cluster_count_prefix(data, cents, j, (n - 1) as nat) + if nearest(cents, data[n - 1])
            == j {
            1int
        } else {
            0int
        }
    }
}

/// The number of rows assigned to cluster `j`.
pub open spec fn cluster_count(data: Seq<Seq<i64>>, cents: Seq<Seq<i64>>, j: int) -> int {
    cluster_count_prefix(data, cents, j, data.len())
}

/// The sum of coordinate `d` over the rows among the first `n` whose nearest
/// centroid is `j`.
pub open spec fn cluster_sum_prefix(
    data: Seq<Seq<i64>>,
    cents: Seq<Seq<i64>>,
    j: int,
    d: int,
    n: nat,
) -> int
    decreases n,
{
    if n == 0 {
        0
    } else {
        cluster_sum_prefix(data, cents, j, d, (n - 1) as nat) + if nearest(cents, data[n - 1])
            == j {
            data[n - 1][d] as int
        } else {
            0int
        }
    }
}

/// The sum of coordinate `d` over the rows assigned to cluster `j`.
pub open spec fn cluster_sum(data: Seq<Seq<i64>>, cents: Seq<Seq<i64>>, j: int, d: int) -> int {
    cluster_sum_prefix(data, cents, j, d, data.len())
}

/// Integer division rounded toward zero.
pub open spec fn div_trunc(s: int, c: int) -> int {
    if s >= 0 {
        s / c
    } else {
        -((-s) / c)
    }
}

/// The centroid of cluster `j` after one update: the coordinate-wise mean of
/// its assigned rows, rounded toward zero; a cluster with no assigned rows
/// keeps its previous centroid (the empty-cluster recovery policy).
pub open spec fn updated_centroid(
    data: Seq<Seq<i64>>,
    cents: Seq<Seq<i64>>,
    j: int,
    dim: nat,
) -> Seq<i64> {
    if cluster_count(data, cents, j) == 0 {
        cents[j]
    } else {
        Seq::new(
            dim,
            |d: int|
                div_trunc(cluster_sum(data, cents, j, d), cluster_count(data, cents, j)) as i64,
        )
    }
}

/// One assignment/update cycle of Lloyd's iteration.
pub open spec fn lloyd_step(data: Seq<Seq<i64>>, cents: Seq<Seq<i64>>, dim: nat) -> Seq<
    Seq<i64>,
> {
    Seq::new(cents.len(), |j: int| updated_centroid(data, cents, j, dim))
}

/// Whether the update moved every coordinate of every centroid by at most
/// `tol`.
pub open spec fn converged(prev: Seq<Seq<i64>>, next: Seq<Seq<i64>>, tol: int) -> bool {
    forall|j: int, d: int| #![trigger next[j][d]]
        0 <= j < prev.len() && 0 <= d < prev[j].len() ==> -tol <= next[j][d] - prev[j][d] <= tol
}

/// Lloyd's refinement from `cents`: assignment/update cycles until an update
/// moves every coordinate by at most `tol`, or `fuel` cycles have run;
/// running out of fuel is a normal termination, not an error.
pub open spec fn lloyd_iterate(
    data: Seq<Seq<i64>>,
    cents: Seq<Seq<i64>>,
    tol: int,
    dim: nat,
    fuel: nat,
) -> Seq<Seq<i64>>
    decreases fuel,
{
    if fuel == 0 {
        cents
    } else {
        let next = lloyd_step(data, cents, dim);
        if converged(cents, next, tol) {
            next
        } else {
            lloyd_iterate(data, next, tol, dim, (fuel - 1) as nat)
        }
    }
}

/// The centroids a completed fit returns, as a function of the dataset, the
/// configuration, and the seeding draw.
pub open spec fn fit_spec(
    data: Seq<Seq<i64>>,
    k: nat,
    tol: int,
    max_iter: nat,
    first: int,
) -> Seq<Seq<i64>> {
    lloyd_iterate(data, seed_centroids(data, first, k), tol, data[0].len(), max_iter)
}

pub proof fn lemma_cluster_prefix_bounds(
    data: Seq<Seq<i64>>,
    cents: Seq<Seq<i64>>,
    j: int,
    d: int,
    n: nat,
    dim: nat,
)
    requires
        data_wf(data, dim),
        n <= data.len(),
        0 <= d < dim,
    ensures
        0 <= cluster_count_prefix(data, cents, j, n) <= n,
        cluster_sum_prefix(data, cents, j, d, n) <= cluster_count_prefix(data, cents, j, n)
            * COORD_LIMIT,
        cluster_sum_prefix(data, cents, j, d, n) >= -(cluster_count_prefix(data, cents, j, n)
            * COORD_LIMIT),
    decreases n,
{
    if n > 0 {
        lemma_cluster_prefix_bounds(data, cents, j, d, (n - 1) as nat, dim);
        assert(point_wf(data[n - 1], dim));
        assert(in_range(data[n - 1][d]));
    }
}

/// A quotient rounded toward zero keeps any bound that the summands obeyed.
pub proof fn lemma_div_trunc_bound(s: int, c: int, b: int)
    requires
        1 <= c,
        0 <= b,
        -(c * b) <= s <= c * b,
    ensures
        -b <= div_trunc(s, c) <= b,
{
    if s >= 0 {
        lemma_div_is_ordered(s, c * b, c);
        lemma_div_multiples_vanish(b, c);
        lemma_div_pos_is_pos(s, c);
    } else {
        lemma_div_is_ordered(-s, c * b, c);
        lemma_div_multiples_vanish(b, c);
        lemma_div_pos_is_pos(-s, c);
    }
}

/// One update keeps the centroids well-formed and their count unchanged.
pub proof fn lemma_lloyd_step_wf(data: Seq<Seq<i64>>, cents: Seq<Seq<i64>>, dim: nat)
    requires
        data_wf(data, dim),
        data_wf(cents, dim),
    ensures
        lloyd_step(data, cents, dim).len() == cents.len(),
        data_wf(lloyd_step(data, cents, dim), dim),
{
    let next = lloyd_step(data, cents, dim);
    assert forall|j: int| 0 <= j < next.len() implies point_wf(#[trigger] next[j], dim) by {
        let c = cluster_count(data, cents, j);
        if c == 0 {
            assert(next[j] == cents[j]);
            assert(point_wf(cents[j], dim));
        } else {
            assert forall|d: int| 0 <= d < dim implies in_range(#[trigger] next[j][d]) by {
                lemma_cluster_prefix_bounds(data, cents, j, d, data.len(), dim);
                lemma_div_trunc_bound(cluster_sum(data, cents, j, d), c, COORD_LIMIT as int);
            }
        }
    }
}

/// The rows that seeding picks are well-formed centroids.
pub proof fn lemma_seed_centroids_wf(data: Seq<Seq<i64>>, first: int, k: nat, dim: nat)
    requires
        data_wf(data, dim),
        0 <= first < data.len(),
        1 <= k <= data.len(),
    ensures
        seed_centroids(data, first, k).len() == k,
        data_wf(seed_centroids(data, first, k), dim),
{
    lemma_seed_indices_wf(data, first, k);
    assert forall|t: int| 0 <= t < k implies point_wf(
        #[trigger] seed_centroids(data, first, k)[t],
        dim,
    ) by {
        assert(seed_centroids(data, first, k)[t] == data[seed_indices(data, first, k)[t]]);
    }
}

/// Whether `x` occurs in `v`.
fn contains_index(v: &Vec<usize>, x: usize) -> (r: bool)
    ensures
        r == idx_view(v@).contains(x as int),
{
    let n = v.len();
    for t in 0..n
        invariant
            forall|u: int| 0 <= u < t ==> idx_view(v@)[u] != x as int,
    {
        if v[t] == x {
            proof {
                assert(idx_view(v@)[t as int] == x as int);
            }
            return true;
        }
    }
    false
}

/// An owned copy of a row.
fn copy_row(src: &Vec<i64>) -> (r: Vec<i64>)
    ensures
        r@ == src@,
{
    let n = src.len();
    let mut r: Vec<i64> = Vec::new();
    for j in 0..n
        invariant
            r@.len() == j,
            forall|u: int| 0 <= u < j ==> r@[u] == src@[u],
    {
        r.push(src[j]);
    }
    proof {
        assert(r@ =~= src@);
    }
    r
}

/// The least squared distance from row `i` to any chosen row.
fn chosen_min_distance(dataset: &Dataset, chosen: &Vec<usize>, i: usize) -> (r: u128)
    requires
        dataset.wf(),
        chosen@.len() >= 1,
        forall|t: int| 0 <= t < chosen@.len() ==> #[trigger] chosen@[t] < dataset@.len(),
        i < dataset@.len(),
    ensures
        r as int == min_dist(dataset@, idx_view(chosen@), i as int),
{
    let ghost ch = idx_view(chosen@);
    assert(point_wf(dataset@[i as int], dataset.dim as nat));
    assert(point_wf(dataset@[ch[0]], dataset.dim as nat));
    let mut m = distance_sq(dataset.row(i), dataset.row(chosen[0]));
    let cn = chosen.len();
    for t in 1..cn
        invariant
            m as int == min_dist_to_chosen(dataset@, ch, i as int, t as nat),
    {
        assert(point_wf(dataset@[ch[t as int]], dataset.dim as nat));
        let d = distance_sq(dataset.row(i), dataset.row(chosen[t]));
        if d < m {
            m = d;
        }
    }
    m
}

/// Sum over the first `n` rows of the squared distance to each row's
/// nearest centroid.
pub open spec fn inertia_prefix(cents: Seq<Seq<i64>>, data: Seq<Seq<i64>>, n: nat) -> int
    decreases n,
{
    if n == 0 {
        0
    } else {
        inertia_prefix(cents, data, (n - 1) as nat) + dist_sq(
            cents[nearest(cents, data[n - 1])],
            data[n - 1],
        )
    }
}

/// The sum over all rows of the squared distance to each row's assigned
/// (nearest) centroid.
pub open spec fn inertia_spec(cents: Seq<Seq<i64>>, data: Seq<Seq<i64>>) -> int {
    inertia_prefix(cents, data, data.len())
}

proof fn lemma_inertia_prefix_bound(
    cents: Seq<Seq<i64>>,
    data: Seq<Seq<i64>>,
    n: nat,
    dim: nat,
)
    requires
        data_wf(data, dim),
        data_wf(cents, dim),
        cents.len() >= 1,
        n <= data.len(),
    ensures
        0 <= inertia_prefix(cents, data, n),
        inertia_prefix(cents, data, n) <= n * ((dim as int) * 4_000_000_000_000_000_000),
    decreases n,
{
    if n > 0 {
        lemma_inertia_prefix_bound(cents, data, (n - 1) as nat, dim);
        let p = data[n - 1];
        assert(point_wf(p, dim));
        crate::utils::lemma_min_index(dists_of(cents, p));
        let c = cents[nearest(cents, p)];
        assert(point_wf(c, dim));
        crate::utils::lemma_dist_sq_prefix_nonneg(c, p, c.len());
        crate::utils::lemma_dist_sq_prefix_bound(c, p, c.len());
        assert((n - 1) * ((dim as int) * 4_000_000_000_000_000_000) + (dim as int)
            * 4_000_000_000_000_000_000 == n * ((dim as int) * 4_000_000_000_000_000_000))
            by (nonlinear_arith);
    }
}

/// The number of assignment/update cycles Lloyd's refinement performs
/// before it stops, converged or out of fuel.
pub open spec fn lloyd_cycles(
    data: Seq<Seq<i64>>,
    cents: Seq<Seq<i64>>,
    tol: int,
    dim: nat,
    fuel: nat,
) -> nat
    decreases fuel,
{
    if fuel == 0 {
        0
    } else {
        let next = lloyd_step(data, cents, dim);
        if converged(cents, next, tol) {
            1
        } else {
            1 + lloyd_cycles(data, next, tol, dim, (fuel - 1) as nat)
        }
    }
}

/// Exactly `n` assignment/update cycles, with no convergence check.
pub open spec fn lloyd_power(data: Seq<Seq<i64>>, cents: Seq<Seq<i64>>, dim: nat, n: nat) -> Seq<
    Seq<i64>,
>
    decreases n,
{
    if n == 0 {
        cents
    } else {
        lloyd_power(data, lloyd_step(data, cents, dim), dim, (n - 1) as nat)
    }
}

/// The Lloyd loop never runs more than its fuel's worth of
/// assignment/update cycles, whatever the tolerance: the refinement equals
/// some number of plain cycles, and that number is at most `fuel`.
pub proof fn lemma_lloyd_iteration_cap(
    data: Seq<Seq<i64>>,
    cents: Seq<Seq<i64>>,
    tol: int,
    dim: nat,
    fuel: nat,
)
    ensures
        lloyd_cycles(data, cents, tol, dim, fuel) <= fuel,
        lloyd_iterate(data, cents, tol, dim, fuel) == lloyd_power(
            data,
            cents,
            dim,
            lloyd_cycles(data, cents, tol, dim, fuel),
        ),
    decreases fuel,
{
    if fuel > 0 {
        let next = lloyd_step(data, cents, dim);
        if converged(cents, next, tol) {
            assert(lloyd_power(data, cents, dim, 1) == lloyd_power(data, next, dim, 0));
        } else {
            lemma_lloyd_iteration_cap(data, next, tol, dim, (fuel - 1) as nat);
            let c = lloyd_cycles(data, next, tol, dim, (fuel - 1) as nat);
            assert(lloyd_power(data, cents, dim, c + 1) == lloyd_power(data, next, dim, c));
        }
    }
}

/// Determinism of the fit: `fit`'s postcondition equates its centroids with
/// `fit_spec` of the configuration, the dataset and the seeding draw, and
/// the draw `seeded_pick(seed, n)` is a function of the seed and the row
/// count alone; so two fits with one configuration, one dataset and one
/// seed yield bit-identical centroids.
pub proof fn lemma_fit_deterministic(
    c1: Seq<Seq<i64>>,
    c2: Seq<Seq<i64>>,
    data: Seq<Seq<i64>>,
    k: nat,
    tol: int,
    max_iter: nat,
    seed: u64,
)
    requires
        c1 == fit_spec(data, k, tol, max_iter, seeded_pick(seed, data.len() as u64) as int),
        c2 == fit_spec(data, k, tol, max_iter, seeded_pick(seed, data.len() as u64) as int),
    ensures
        c1 == c2,
{
}

/// The mean of `c` in-range coordinates from their sum, rounded toward zero.
fn mean_coord(s: i128, c: usize) -> (r: i64)
    requires
        1 <= c,
        -((c as int) * (COORD_LIMIT as int)) <= s as int,
        s as int <= (c as int) * (COORD_LIMIT as int),
    ensures
        r as int == div_trunc(s as int, c as int),
        in_range(r),
{
    proof {
        lemma_div_trunc_bound(s as int, c as int, COORD_LIMIT as int);
    }
    if s >= 0 {
        let q: u128 = (s as u128) / (c as u128);
        q as i64
    } else {
        let q: u128 = ((-s) as u128) / (c as u128);
        -(q as i64)
    }
}

/// Whether the update moved every coordinate by at most `tol`.
fn within_tolerance(prev: &Vec<Vec<i64>>, next: &Vec<Vec<i64>>, tol: i64) -> (r: bool)
    requires
        tol >= 0,
        prev@.len() == next@.len(),
        forall|j: int| 0 <= j < prev@.len() ==> (#[trigger] prev@[j])@.len() == next@[j]@.len(),
    ensures
        r == converged(rows_view(prev@), rows_view(next@), tol as int),
{
    let ghost pv = rows_view(prev@);
    let ghost nv = rows_view(next@);
    let k = prev.len();
    for j in 0..k
        invariant
            forall|u: int, e: int| #![trigger nv[u][e]]
                0 <= u < j && 0 <= e < pv[u].len() ==> -(tol as int) <= nv[u][e] - pv[u][e]
                    <= tol as int,
    {
        let dim = prev[j].len();
        for d in 0..dim
            invariant
                forall|e: int| #![trigger nv[j as int][e]]
                    0 <= e < d ==> -(tol as int) <= nv[j as int][e] - pv[j as int][e]
                        <= tol as int,
        {
            let diff: i128 = (next[j][d] as i128) - (prev[j][d] as i128);
            if diff > tol as i128 || diff < -(tol as i128) {
                proof {
                    assert(!(-(tol as int) <= nv[j as int][d as int] - pv[j as int][d as int]
                        <= tol as int));
                }
                return false;
            }
        }
    }
    true
}

/// One Lloyd update: each centroid moves to the mean of the rows assigned to
/// it; a centroid with no assigned rows keeps its position.
fn update_centroids(dataset: &Dataset, centroids: &Vec<Vec<i64>>) -> (r: Vec<Vec<i64>>)
    requires
        dataset.wf(),
        centroids@.len() >= 1,
        data_wf(rows_view(centroids@), dataset.dim as nat),
    ensures
        rows_view(r@) == lloyd_step(dataset@, rows_view(centroids@), dataset.dim as nat),
{
    let ghost data = dataset@;
    let ghost cents = rows_view(centroids@);
    let ghost dim_s = dataset.dim as nat;
    let k = centroids.len();
    let n = dataset.nrows();
    let dim = dataset.ncols();
    let mut result: Vec<Vec<i64>> = Vec::new();
    for j in 0..k
        invariant
            result@.len() == j,
            forall|u: int| 0 <= u < j ==> (#[trigger] result@[u])@ == updated_centroid(
                data,
                cents,
                u,
                dim_s,
            ),
    {
        let mut count: usize = 0;
        let mut sums: Vec<i128> = Vec::new();
        for d in 0..dim
            invariant
                sums@.len() == d,
                forall|e: int| 0 <= e < d ==> sums@[e] == 0,
        {
            sums.push(0);
        }
        for i in 0..n
            invariant
                count == cluster_count_prefix(data, cents, j as int, i as nat),
                count <= i,
                sums@.len() == dim,
                forall|e: int| 0 <= e < dim ==> sums@[e] == cluster_sum_prefix(
                    data,
                    cents,
                    j as int,
                    e,
                    i as nat,
                ),
        {
            proof {
                assert(point_wf(data[i as int], dim_s));
            }
            let a = get_closest_centroid(dataset.row(i), centroids);
            if a == j {
                count += 1;
                let row = dataset.row(i);
                for d in 0..dim
                    invariant
                        sums@.len() == dim,
                        forall|e: int| 0 <= e < d ==> sums@[e] == cluster_sum_prefix(
                            data,
                            cents,
                            j as int,
                            e,
                            i as nat,
                        ) + data[i as int][e],
                        forall|e: int| d <= e < dim ==> sums@[e] == cluster_sum_prefix(
                            data,
                            cents,
                            j as int,
                            e,
                            i as nat,
                        ),
                {
                    proof {
                        lemma_cluster_prefix_bounds(data, cents, j as int, d as int, i as nat,
                            dim_s);
                        assert(in_range(data[i as int][d as int]));
                    }
                    let cur = sums[d];
                    sums.set(d, cur + (row[d] as i128));
                }
            }
        }
        let mut newc: Vec<i64>;
        if count == 0 {
            newc = copy_row(&centroids[j]);
            proof {
                assert(newc@ == updated_centroid(data, cents, j as int, dim_s));
            }
        } else {
            newc = Vec::new();
            for d in 0..dim
                invariant
                    newc@.len() == d,
                    count == cluster_count(data, cents, j as int),
                    count >= 1,
                    sums@.len() == dim,
                    forall|e: int| 0 <= e < dim ==> sums@[e] == cluster_sum(
                        data,
                        cents,
                        j as int,
                        e,
                    ),
                    forall|e: int| 0 <= e < d ==> (#[trigger] newc@[e]) as int == div_trunc(
                        cluster_sum(data, cents, j as int, e),
                        cluster_count(data, cents, j as int),
                    ),
            {
                proof {
                    lemma_cluster_prefix_bounds(data, cents, j as int, d as int, data.len(),
                        dim_s);
                }
                let m = mean_coord(sums[d], count);
                newc.push(m);
            }
            proof {
                assert(newc@ =~= updated_centroid(data, cents, j as int, dim_s));
            }
        }
        result.push(newc);
    }
    proof {
        assert(rows_view(result@) =~= lloyd_step(data, cents, dim_s));
    }
    result
}

/// Immutable K-Means configuration, fixed at construction.
pub struct KMeans {
    pub n_clusters: u32,
    pub tolerance: i64,
    pub max_n_iterations: u32,
}

impl KMeans {
    /// What `KMeans::new` establishes of every configuration it returns.
    pub open spec fn wf(&self) -> bool {
        self.n_clusters >= 1 && self.tolerance >= 0 && self.max_n_iterations >= 1
    }

    /// Validates and builds a configuration: at least one cluster, a
    /// non-negative convergence tolerance (in coordinate units), and at
    /// least one iteration.
    pub fn new(n_clusters: u32, tolerance: i64, max_n_iterations: u32) -> (result: Result<
        KMeans,
        Error,
    >)
        ensures
            match result {
                Ok(km) => {
                    &&& km.wf()
                    &&& km.n_clusters == n_clusters
                    &&& km.tolerance == tolerance
                    &&& km.max_n_iterations == max_n_iterations
                },
                Err(e) => e == Error::InvalidParameter,
            },
            (result is Err) <==> (n_clusters == 0 || tolerance < 0 || max_n_iterations == 0),
    {
        if n_clusters == 0 || tolerance < 0 || max_n_iterations == 0 {
            Err(Error::InvalidParameter)
        } else {
            Ok(KMeans { n_clusters, tolerance, max_n_iterations })
        }
    }

    /// The configured number of clusters.
    pub fn n_clusters(&self) -> (v: u32)
        ensures
            v == self.n_clusters,
    {
        self.n_clusters
    }

    /// The configured convergence tolerance, in coordinate units.
    pub fn tolerance(&self) -> (v: i64)
        ensures
            v == self.tolerance,
    {
        self.tolerance
    }

    /// The configured iteration cap of the Lloyd loop.
    pub fn max_n_iterations(&self) -> (v: u32)
        ensures
            v == self.max_n_iterations,
    {
        self.max_n_iterations
    }

    /// Farthest-point seeding: the supplied first pick, then repeatedly the
    /// not-yet-chosen row whose least distance to the rows already chosen is
    /// greatest, earlier rows winning ties.
    fn plus_plus_init(&self, dataset: &Dataset, first: usize) -> (r: Vec<Vec<i64>>)
        requires
            self.wf(),
            dataset.wf(),
            self.n_clusters <= dataset@.len(),
            first < dataset@.len(),
        ensures
            rows_view(r@) == seed_centroids(dataset@, first as int, self.n_clusters as nat),
    {
        let ghost data = dataset@;
        let k = self.n_clusters as usize;
        let n = dataset.nrows();
        let mut chosen: Vec<usize> = Vec::new();
        chosen.push(first);
        proof {
            assert(idx_view(chosen@) =~= seed_indices(data, first as int, 1));
        }
        while chosen.len() < k
            invariant
                1 <= chosen@.len() <= k,
                idx_view(chosen@) == seed_indices(data, first as int, chosen@.len() as nat),
                forall|t: int| 0 <= t < chosen@.len() ==> #[trigger] chosen@[t] < n,
            decreases k - chosen@.len(),
        {
            let ghost ch = idx_view(chosen@);
            proof {
                lemma_seed_indices_wf(data, first as int, chosen@.len() as nat);
                lemma_exists_unchosen(ch, n as int);
                lemma_farthest_prefix_props(data, ch, n as nat);
            }
            let mut found = false;
            let mut best: usize = 0;
            let mut best_d: u128 = 0;
            for i in 0..n
                invariant
                    found == (farthest_prefix(data, ch, i as nat) != -1),
                    found ==> best as int == farthest_prefix(data, ch, i as nat),
                    found ==> best_d as int == min_dist(data, ch, best as int),
                    found ==> best < n,
            {
                if !contains_index(&chosen, i) {
                    let md = chosen_min_distance(dataset, &chosen, i);
                    if !found {
                        found = true;
                        best = i;
                        best_d = md;
                    } else if md > best_d {
                        best = i;
                        best_d = md;
                    }
                }
            }
            chosen.push(best);
            proof {
                assert(idx_view(chosen@) =~= seed_indices(data, first as int, chosen@.len() as nat));
            }
        }
        proof {
            lemma_seed_indices_wf(data, first as int, k as nat);
        }
        let ghost sidx = seed_indices(data, first as int, k as nat);
        let mut centroids: Vec<Vec<i64>> = Vec::new();
        for t in 0..k
            invariant
                centroids@.len() == t,
                forall|u: int| 0 <= u < t ==> (#[trigger] centroids@[u])@ == data[sidx[u]],
        {
            let row = copy_row(dataset.row(chosen[t]));
            centroids.push(row);
        }
        proof {
            assert(rows_view(centroids@) =~= seed_centroids(data, first as int,
                self.n_clusters as nat));
        }
        centroids
    }

    /// Fits exactly `n_clusters` centroids to `dataset`: a seeding row drawn
    /// from the seeded random source, farthest-point seeding for the rest,
    /// then at most `max_n_iterations` Lloyd cycles, stopping early once an
    /// update moves every coordinate by at most `tolerance`. The result is a
    /// function of the configuration, the dataset and the seed alone. A
    /// dataset with fewer rows than `n_clusters` is `InsufficientData`.
    pub fn fit(&self, dataset: &Dataset, seed: u64) -> (result: Result<Model, Error>)
        requires
            self.wf(),
            dataset.wf(),
        ensures
            match result {
                Ok(m) => {
                    &&& dataset@.len() >= self.n_clusters
                    &&& m.wf()
                    &&& m@.len() == self.n_clusters
                    &&& m.dim() == dataset.dim
                    &&& m@ == fit_spec(
                        dataset@,
                        self.n_clusters as nat,
                        self.tolerance as int,
                        self.max_n_iterations as nat,
                        seeded_pick(seed, dataset@.len() as u64) as int,
                    )
                },
                Err(e) => e == Error::InsufficientData,
            },
            (result is Err) <==> dataset@.len() < self.n_clusters,
    {
        let n = dataset.nrows();
        let k = self.n_clusters as usize;
        if n < k {
            return Err(Error::InsufficientData);
        }
        let first = draw_uniform(seed, n as u64) as usize;
        let mut centroids = self.plus_plus_init(dataset, first);
        let ghost data = dataset@;
        let ghost dim_s = dataset.dim as nat;
        let ghost tol = self.tolerance as int;
        proof {
            lemma_seed_centroids_wf(data, first as int, k as nat, dim_s);
        }
        let ghost goal = lloyd_iterate(data, rows_view(centroids@), tol, dim_s,
            self.max_n_iterations as nat);
        let max_iter = self.max_n_iterations;
        let mut it: u32 = 0;
        let mut done = false;
        while !done && it < max_iter
            invariant
                it <= max_iter,
                rows_view(centroids@).len() == k,
                data_wf(rows_view(centroids@), dim_s),
                !done ==> goal == lloyd_iterate(data, rows_view(centroids@), tol, dim_s, (max_iter
                    - it) as nat),
                done ==> rows_view(centroids@) == goal,
            decreases max_iter - it,
        {
            let ghost prev = rows_view(centroids@);
            proof {
                lemma_lloyd_step_wf(data, prev, dim_s);
            }
            let next = update_centroids(dataset, &centroids);
            proof {
                assert forall|j: int| 0 <= j < centroids@.len() implies (#[trigger] centroids@[j])@.len()
                    == next@[j]@.len() by {
                    assert(point_wf(rows_view(centroids@)[j], dim_s));
                    assert(point_wf(rows_view(next@)[j], dim_s));
                }
            }
            let conv = within_tolerance(&centroids, &next, self.tolerance);
            centroids = next;
            it += 1;
            if conv {
                done = true;
            }
        }
        proof {
            if !done {
                assert(goal == lloyd_iterate(data, rows_view(centroids@), tol, dim_s, 0));
            }
            assert(point_wf(data[0], dim_s));
            assert(point_wf(rows_view(centroids@)[0], dim_s));
        }
        Ok(Model { centroids })
    }
}

/// A fitted model: an ordered sequence of centroids, one per cluster, fixed
/// once `fit` returns it. A centroid's position is its cluster index.
pub struct Model {
    pub centroids: Vec<Vec<i64>>,
}

impl View for Model {
    type V = Seq<Seq<i64>>;

    open spec fn view(&self) -> Seq<Seq<i64>> {
        rows_view(self.centroids@)
    }
}

impl Model {
    /// The shared dimensionality of the centroids.
    pub open spec fn dim(&self) -> nat {
        self@[0].len()
    }

    pub open spec fn wf(&self) -> bool {
        self@.len() >= 1 && data_wf(self@, self.dim())
    }

    /// The fitted centroids, in cluster-index order.
    pub fn centroids(&self) -> (r: &Vec<Vec<i64>>)
        ensures
            rows_view(r@) == self@,
    {
        &self.centroids
    }

    /// The cluster index of the centroid nearest to `point`; on equal
    /// distances the lowest index wins. The result always lies in
    /// `[0, n_clusters)`.
    pub fn predict(&self, point: &Vec<i64>) -> (r: usize)
        requires
            self.wf(),
            point@.len() == self.dim(),
            coords_in_range(point@),
        ensures
            r < self@.len(),
            r as int == nearest(self@, point@),
    {
        get_closest_centroid(point, &self.centroids)
    }

    /// The sum over all rows of the squared distance to each row's assigned
    /// (nearest) centroid: a clustering-quality diagnostic for callers'
    /// model-selection heuristics. The bound on `rows * dim` is a machine
    /// limit that keeps the sum within `u128`.
    pub fn inertia(&self, dataset: &Dataset) -> (r: u128)
        requires
            self.wf(),
            dataset.wf(),
            dataset.dim == self.dim(),
            dataset@.len() * dataset.dim <= 0xffff_ffff_ffff_ffffu64,
        ensures
            r as int == inertia_spec(self@, dataset@),
    {
        let ghost data = dataset@;
        let ghost dim_s = dataset.dim as nat;
        let ghost t: int = (dim_s as int) * 4_000_000_000_000_000_000;
        let n = dataset.nrows();
        let mut acc: u128 = 0;
        for i in 0..n
            invariant
                acc as int == inertia_prefix(self@, data, i as nat),
        {
            proof {
                assert(point_wf(data[i as int], dim_s));
            }
            let a = get_closest_centroid(dataset.row(i), &self.centroids);
            proof {
                assert(point_wf(self@[a as int], dim_s));
                lemma_inertia_prefix_bound(self@, data, i as nat, dim_s);
                lemma_inertia_prefix_bound(self@, data, (i + 1) as nat, dim_s);
                assert((i + 1) * t <= n as int * t) by (nonlinear_arith)
                    requires
                        i + 1 <= n as int && t >= 0,
                ;
                assert(n as int * t == (n as int * dim_s as int) * 4_000_000_000_000_000_000)
                    by (nonlinear_arith)
                    requires
                        t == (dim_s as int) * 4_000_000_000_000_000_000,
                ;
            }
            let d = distance_sq(&self.centroids[a], dataset.row(i));
            acc = acc + d;
        }
        acc
    }
}

} // verus!
