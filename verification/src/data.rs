//! The data model: bounded fixed-point points, datasets of uniform
//! dimensionality, labeled datasets, and the library's error type.

use vstd::prelude::*;

verus! {

/// Greatest coordinate magnitude a dataset may carry.
///
/// With every coordinate in `[-COORD_LIMIT, COORD_LIMIT]`, a squared
/// coordinate difference is at most `4 * 10^18 < 2^62`, so a squared
/// Euclidean distance over any number of dimensions fits in a `u128`,
/// and a coordinate sum over any number of rows fits in an `i128`.
pub const COORD_LIMIT: i64 = 1_000_000_000;

/// The typed failures of the library.
///
/// An empty cluster during Lloyd's iteration is not an error here: the
/// recovery policy (the centroid keeps its previous position) always applies,
/// so no failure of that kind can arise.
#[derive(Clone, Copy, Debug, PartialEq, Eq)]
pub enum Error {
    /// A row's length disagrees with the dataset's established
    /// dimensionality, or a label sequence disagrees with the row count.
    DimensionMismatch,
    /// A configuration value lies outside its allowed range:
    /// `n_clusters` or `max_n_iterations` or `k` of zero, or a negative
    /// tolerance.
    InvalidParameter,
    /// Fewer rows than the algorithm needs: fewer than `n_clusters` for a
    /// K-Means fit, fewer than `k` for a K-Nearest-Neighbors classifier.
    InsufficientData,
}

/// A coordinate the library accepts.
pub open spec fn in_range(x: i64) -> bool {
    -COORD_LIMIT <= x <= COORD_LIMIT
}

/// Every coordinate of `p` is in range.
pub open spec fn coords_in_range(p: Seq<i64>) -> bool {
    forall|j: int| 0 <= j < p.len() ==> in_range(#[trigger] p[j])
}

/// A well-formed point of dimensionality `dim`.
pub open spec fn point_wf(p: Seq<i64>, dim: nat) -> bool {
    p.len() == dim && coords_in_range(p)
}

/// Every row is a well-formed point of dimensionality `dim`.
pub open spec fn data_wf(rows: Seq<Seq<i64>>, dim: nat) -> bool {
    forall|i: int| 0 <= i < rows.len() ==> point_wf(#[trigger] rows[i], dim)
}

/// The mathematical value of a sequence of rows.
pub open spec fn rows_view(rows: Seq<Vec<i64>>) -> Seq<Seq<i64>> {
    Seq::new(rows.len(), |i: int| rows[i]@)
}

/// An ordered sequence of points sharing one dimensionality.
pub struct Dataset {
    pub rows: Vec<Vec<i64>>,
    pub dim: usize,
}

impl View for Dataset {
    type V = Seq<Seq<i64>>;

    open spec fn view(&self) -> Seq<Seq<i64>> {
        rows_view(self.rows@)
    }
}

impl Dataset {
    /// Every row is a point of dimensionality `self.dim` with coordinates in
    /// range; constructors establish this and nothing mutates a dataset.
    pub open spec fn wf(&self) -> bool {
        data_wf(self@, self.dim as nat)
    }

    /// Builds a dataset from rows, establishing one dimensionality for all of
    /// them: that of the first row. A row of any other length is a
    /// `DimensionMismatch`.
    pub fn new(rows: Vec<Vec<i64>>) -> (result: Result<Dataset, Error>)
        requires
            forall|i: int| 0 <= i < rows@.len() ==> coords_in_range((#[trigger] rows@[i])@),
        ensures
            match result {
                Ok(d) => {
                    &&& d.wf()
                    &&& d@ == rows_view(rows@)
                    &&& d.dim == if rows@.len() == 0 { 0int } else { rows@[0]@.len() as int }
                },
                Err(e) => e == Error::DimensionMismatch,
            },
            (result is Err) <==> exists|i: int|
                0 <= i < rows@.len() && (#[trigger] rows@[i])@.len() != rows@[0]@.len(),
    {
        let dim: usize = if rows.len() == 0 { 0 } else { rows[0].len() };
        let n = rows.len();
        for i in 0..n
            invariant
                n == rows@.len(),
                dim as int == if n == 0 { 0int } else { rows@[0]@.len() as int },
                forall|t: int| 0 <= t < i ==> (#[trigger] rows@[t])@.len() == dim,
        {
            if rows[i].len() != dim {
                return Err(Error::DimensionMismatch);
            }
        }
        let d = Dataset { rows, dim };
        assert(d.wf()) by {
            assert(forall|t: int| 0 <= t < d@.len() ==> point_wf(#[trigger] d@[t], d.dim as nat));
        }
        Ok(d)
    }

    /// The number of rows.
    pub fn nrows(&self) -> (n: usize)
        ensures
            n == self@.len(),
    {
        self.rows.len()
    }

    /// The shared dimensionality of the rows.
    pub fn ncols(&self) -> (d: usize)
        ensures
            d == self.dim,
    {
        self.dim
    }

    /// The row at index `i`.
    pub fn row(&self, i: usize) -> (r: &Vec<i64>)
        requires
            i < self@.len(),
        ensures
            r@ == self@[i as int],
    {
        &self.rows[i]
    }
}

/// A dataset paired with a parallel sequence of class labels: the label at
/// index `i` refers to the point at index `i`.
pub struct LabeledDataset {
    pub data: Dataset,
    pub labels: Vec<usize>,
}

impl LabeledDataset {
    pub open spec fn wf(&self) -> bool {
        self.data.wf() && self.labels@.len() == self.data@.len()
    }

    /// Pairs rows with labels; a label sequence whose length disagrees with
    /// the row count is a `DimensionMismatch`.
    pub fn new(data: Dataset, labels: Vec<usize>) -> (result: Result<LabeledDataset, Error>)
        requires
            data.wf(),
        ensures
            match result {
                Ok(ld) => {
                    &&& ld.wf()
                    &&& ld.data@ == data@
                    &&& ld.data.dim == data.dim
                    &&& ld.labels@ == labels@
                },
                Err(e) => e == Error::DimensionMismatch,
            },
            (result is Err) <==> labels@.len() != data@.len(),
    {
        if labels.len() == data.nrows() {
            Ok(LabeledDataset { data, labels })
        } else {
            Err(Error::DimensionMismatch)
        }
    }
}

} // verus!
