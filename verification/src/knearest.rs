//! K-Nearest-Neighbors classification: majority vote among the `k` training
//! rows nearest to a query, over fixed-point integer coordinates.

use vstd::prelude::*;
use crate::data::{coords_in_range, point_wf, Dataset, Error, LabeledDataset};
use crate::utils::{
    dist_sq, dists_of, distance_sq, lemma_dist_sq_prefix_nonneg, lemma_dist_sq_zero,
    lemma_min_index, min_index,
};

verus! {

/// Whether row `j` precedes row `i` in the distance ranking: strictly
/// smaller distance, or equal distance and smaller index. This is the order
/// a stable ascending sort by distance gives the rows, so equidistant rows
/// keep their original relative order.
pub open spec fn ranked_before(dists: Seq<int>, j: int, i: int) -> bool {
    dists[j] < dists[i] || (dists[j] == dists[i] && j < i)
}

/// The number of rows among the first `n` ranked before row `i`.
pub open spec fn rank_prefix(dists: Seq<int>, i: int, n: nat) -> int
    decreases n,
{
    if n == 0 {
        0
    } else {
        rank_prefix(dists, i, (n - 1) as nat) + if ranked_before(dists, n - 1, i) {
            1int
        } else {
            0int
        }
    }
}

/// The rank of row `i`: how many rows the ranking places before it.
pub open spec fn rank(dists: Seq<int>, i: int) -> int {
    rank_prefix(dists, i, dists.len())
}

/// Whether row `i` is among the `k` nearest rows: fewer than `k` rows are
/// ranked before it.
pub open spec fn among_k_nearest(dists: Seq<int>, k: int, i: int) -> bool {
    0 <= i < dists.len() && rank(dists, i) < k
}

/// The number of rows among the first `n` that are among the `k` nearest
/// and carry label `l`.
pub open spec fn label_count_prefix(
    dists: Seq<int>,
    labels: Seq<usize>,
    k: int,
    l: usize,
    n: nat,
) -> int
    decreases n,
{
    if n == 0 {
        0
    } else {
        label_count_prefix(dists, labels, k, l, (n - 1) as nat) + if among_k_nearest(
            dists,
            k,
            n - 1,
        ) && labels[n - 1] == l {
            1int
        } else {
            0int
        }
    }
}

/// How many of the `k` nearest rows carry label `l`.
pub open spec fn label_count(dists: Seq<int>, labels: Seq<usize>, k: int, l: usize) -> int {
    label_count_prefix(dists, labels, k, l, labels.len())
}

/// What `predict` returns: a label carried by one of the `k` nearest rows,
/// whose count among them no other label exceeds; a label tying that count
/// is no smaller. This pins the vote's outcome down to one value.
pub open spec fn is_majority_label(
    dists: Seq<int>,
    labels: Seq<usize>,
    k: int,
    r: usize,
) -> bool {
    &&& exists|i: int| #[trigger] among_k_nearest(dists, k, i) && labels[i] == r
    &&& forall|l: usize| #![trigger label_count(dists, labels, k, l)]
        label_count(dists, labels, k, l) < label_count(dists, labels, k, r) || (label_count(
            dists,
            labels,
            k,
            l,
        ) == label_count(dists, labels, k, r) && r <= l)
}

pub proof fn lemma_rank_prefix_bounds(dists: Seq<int>, i: int, n: nat)
    ensures
        0 <= rank_prefix(dists, i, n) <= n,
        rank_prefix(dists, i, n) == 0 <==> (forall|j: int|
            0 <= j < n ==> !ranked_before(dists, j, i)),
    decreases n,
{
    if n > 0 {
        lemma_rank_prefix_bounds(dists, i, (n - 1) as nat);
    }
}

/// With a row to rank and `k >= 1`, some row is among the `k` nearest: the
/// first row at minimal distance has rank zero.
pub proof fn lemma_exists_among(dists: Seq<int>, k: int)
    requires
        dists.len() >= 1,
        k >= 1,
    ensures
        among_k_nearest(dists, k, min_index(dists)),
        rank(dists, min_index(dists)) == 0,
{
    lemma_min_index(dists);
    let m = min_index(dists);
    assert(forall|j: int| 0 <= j < dists.len() ==> !ranked_before(dists, j, m));
    lemma_rank_prefix_bounds(dists, m, dists.len());
}

pub proof fn lemma_label_count_prefix_iff(
    dists: Seq<int>,
    labels: Seq<usize>,
    k: int,
    l: usize,
    n: nat,
)
    ensures
        0 <= label_count_prefix(dists, labels, k, l, n) <= n,
        (label_count_prefix(dists, labels, k, l, n) > 0) <==> (exists|i: int|
            0 <= i < n && #[trigger] among_k_nearest(dists, k, i) && labels[i] == l),
    decreases n,
{
    if n > 0 {
        lemma_label_count_prefix_iff(dists, labels, k, l, (n - 1) as nat);
    }
}

/// The majority-label predicate pins one value: the vote has one winner.
pub proof fn lemma_majority_label_unique(
    dists: Seq<int>,
    labels: Seq<usize>,
    k: int,
    r1: usize,
    r2: usize,
)
    requires
        is_majority_label(dists, labels, k, r1),
        is_majority_label(dists, labels, k, r2),
    ensures
        r1 == r2,
{
    assert(label_count(dists, labels, k, r1) == label_count(dists, labels, k, r2));
}

/// With `k = 1`, predicting a point equal to a training row yields that
/// row's label, for the first row equal to the point: the single vote is
/// cast by the first row at distance zero.
pub proof fn lemma_nearest_training_row(
    train: Seq<Seq<i64>>,
    labels: Seq<usize>,
    p: Seq<i64>,
    i: int,
    r: usize,
)
    requires
        labels.len() == train.len(),
        forall|t: int| 0 <= t < train.len() ==> (#[trigger] train[t]).len() == p.len(),
        0 <= i < train.len(),
        train[i] == p,
        forall|j: int| 0 <= j < i ==> train[j] != p,
        is_majority_label(dists_of(train, p), labels, 1, r),
    ensures
        r == labels[i],
{
    let ds = dists_of(train, p);
    assert forall|j: int| 0 <= j < train.len() implies ds[j] >= 0 by {
        lemma_dist_sq_prefix_nonneg(train[j], p, train[j].len());
    }
    lemma_dist_sq_zero(train[i], p);
    assert(ds[i] == 0);
    assert forall|j: int| #[trigger] among_k_nearest(ds, 1, j) implies j == i by {
        if j != i {
            lemma_rank_prefix_bounds(ds, j, ds.len());
            assert(!ranked_before(ds, i, j));
            assert(ds[j] == 0);
            lemma_dist_sq_zero(train[j], p);
            assert(train[j] == p);
            assert(j < i);
            assert(false);
        }
    }
    let w = choose|t: int| #[trigger] among_k_nearest(ds, 1, t) && labels[t] == r;
    assert(w == i);
}

/// A K-Nearest-Neighbors classifier: `k` and an owned labeled reference
/// dataset, both fixed at construction and never mutated.
pub struct KNearest {
    pub k: usize,
    pub data: Dataset,
    pub class_labels: Vec<usize>,
}

impl KNearest {
    pub open spec fn wf(&self) -> bool {
        &&& self.data.wf()
        &&& 1 <= self.k <= self.data@.len()
        &&& self.class_labels@.len() == self.data@.len()
    }

    /// The shared dimensionality of the training rows.
    pub open spec fn dim(&self) -> nat {
        self.data.dim as nat
    }

    /// Validates and builds a classifier around an owned labeled dataset: a
    /// `k` of zero is `InvalidParameter`, and a `k` above the training row
    /// count is `InsufficientData`.
    pub fn new(k: usize, training: LabeledDataset) -> (result: Result<KNearest, Error>)
        requires
            training.wf(),
        ensures
            match result {
                Ok(c) => {
                    &&& c.wf()
                    &&& c.k == k
                    &&& c.data@ == training.data@
                    &&& c.data.dim == training.data.dim
                    &&& c.class_labels@ == training.labels@
                },
                Err(e) => {
                    &&& (e == Error::InvalidParameter <==> k == 0)
                    &&& (e == Error::InsufficientData <==> k > training.data@.len())
                },
            },
            (result is Err) <==> (k == 0 || k > training.data@.len()),
    {
        if k == 0 {
            Err(Error::InvalidParameter)
        } else if k > training.data.nrows() {
            Err(Error::InsufficientData)
        } else {
            Ok(KNearest { k, data: training.data, class_labels: training.labels })
        }
    }

    /// The majority label among the `k` training rows nearest to `point`.
    /// Rows are ranked by ascending squared distance, equal distances
    /// keeping their original order, as a stable sort would leave them; of
    /// the first `k` rows the label with the highest count wins, and on
    /// tied counts the smallest label — the documented deterministic
    /// tie-break.
    pub fn predict(&self, point: &Vec<i64>) -> (r: usize)
        requires
            self.wf(),
            point@.len() == self.dim(),
            coords_in_range(point@),
        ensures
            is_majority_label(
                dists_of(self.data@, point@),
                self.class_labels@,
                self.k as int,
                r,
            ),
    {
        let ghost ds = dists_of(self.data@, point@);
        let ghost lbls = self.class_labels@;
        let ghost kk = self.k as int;
        let n = self.data.nrows();
        let mut dists: Vec<u128> = Vec::new();
        for i in 0..n
            invariant
                dists@.len() == i,
                forall|t: int| 0 <= t < i ==> (#[trigger] dists@[t]) as int == ds[t],
        {
            proof {
                assert(point_wf(self.data@[i as int], self.dim()));
            }
            let d = distance_sq(self.data.row(i), point);
            dists.push(d);
        }
        let mut among: Vec<bool> = Vec::new();
        for i in 0..n
            invariant
                among@.len() == i,
                forall|t: int| 0 <= t < i ==> (#[trigger] among@[t]) == among_k_nearest(
                    ds,
                    kk,
                    t,
                ),
        {
            let mut cnt: usize = 0;
            for j in 0..n
                invariant
                    cnt == rank_prefix(ds, i as int, j as nat),
                    cnt <= j,
            {
                if dists[j] < dists[i] || (dists[j] == dists[i] && j < i) {
                    cnt += 1;
                }
            }
            among.push(cnt < self.k);
        }
        let mut found = false;
        let mut best_label: usize = 0;
        let mut best_count: usize = 0;
        for i in 0..n
            invariant
                found == (exists|t: int| 0 <= t < i && #[trigger] among_k_nearest(ds, kk, t)),
                found ==> exists|t: int|
                    0 <= t < i && #[trigger] among_k_nearest(ds, kk, t) && lbls[t] == best_label,
                found ==> best_count == label_count(ds, lbls, kk, best_label),
                found ==> best_count >= 1,
                found ==> forall|t: int|
                    0 <= t < i && #[trigger] among_k_nearest(ds, kk, t) ==> (label_count(
                        ds,
                        lbls,
                        kk,
                        lbls[t],
                    ) < best_count || (label_count(ds, lbls, kk, lbls[t]) == best_count
                        && best_label <= lbls[t])),
        {
            if among[i] {
                let li = self.class_labels[i];
                let mut c: usize = 0;
                for j in 0..n
                    invariant
                        c == label_count_prefix(ds, lbls, kk, li, j as nat),
                        c <= j,
                {
                    if among[j] && self.class_labels[j] == li {
                        c += 1;
                    }
                }
                proof {
                    lemma_label_count_prefix_iff(ds, lbls, kk, li, lbls.len());
                }
                if !found || c > best_count || (c == best_count && li < best_label) {
                    found = true;
                    best_label = li;
                    best_count = c;
                }
            }
        }
        proof {
            lemma_exists_among(ds, kk);
            assert(found);
            assert forall|l: usize|
                label_count(ds, lbls, kk, l) < label_count(ds, lbls, kk, best_label)
                    || (label_count(ds, lbls, kk, l) == label_count(ds, lbls, kk, best_label)
                    && best_label <= l) by {
                lemma_label_count_prefix_iff(ds, lbls, kk, l, lbls.len());
                if label_count(ds, lbls, kk, l) > 0 {
                    let t = choose|t: int|
                        0 <= t < lbls.len() && #[trigger] among_k_nearest(ds, kk, t) && lbls[t]
                            == l;
                    assert(among_k_nearest(ds, kk, t));
                }
            }
        }
        best_label
    }
}

} // verus!
