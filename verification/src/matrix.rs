//! The matrix of transition weights, stored by `nalgebra`.

use vstd::prelude::*;

verus! {

/// A dynamically sized matrix of `u64` weights.
///
/// The storage is a `nalgebra::DMatrix<u64>`; nothing of it is visible to the
/// verifier except through [`columns_of`].
#[verifier::external_body]
#[derive(Debug)]
pub struct WeightMatrix {
    inner: nalgebra::DMatrix<u64>,
}

/// What a matrix holds: its columns, first to last, each listing its entries
/// from the first row to the last.
pub uninterp spec fn columns_of(m: WeightMatrix) -> Seq<Seq<u64>>;

/// The columns that `data` holds when it is read column by column, `nrows`
/// entries at a time.
pub open spec fn column_major(data: Seq<u64>, nrows: nat, ncols: nat) -> Seq<Seq<u64>> {
    Seq::new(ncols, |c: int| data.subrange(c * nrows, c * nrows + nrows))
}

/// Calls `nalgebra::DMatrix::from_vec`, which fills the matrix column by
/// column from `data` and panics unless `data` holds `nrows * ncols` entries.
/// Assumed: the columns of the result are the consecutive runs of `nrows`
/// entries of `data`.
#[verifier::external_body]
pub(crate) fn matrix_from_vec(nrows: usize, ncols: usize, data: Vec<u64>) -> (m: WeightMatrix)
    requires
        nrows * ncols == data.len(),
    ensures
        columns_of(m) == column_major(data@, nrows as nat, ncols as nat),
{
    WeightMatrix { inner: nalgebra::DMatrix::from_vec(nrows, ncols, data) }
}

/// Calls `nalgebra::Matrix::ncols`. Assumed: it is the number of columns.
#[verifier::external_body]
pub(crate) fn matrix_ncols(m: &WeightMatrix) -> (n: usize)
    ensures
        n == columns_of(*m).len(),
{
    m.inner.ncols()
}

/// Calls `nalgebra::Matrix::nrows`. Assumed: every column has that many
/// entries.
#[verifier::external_body]
pub(crate) fn matrix_nrows(m: &WeightMatrix) -> (n: usize)
    ensures
        forall|c: int| 0 <= c < columns_of(*m).len() ==> (#[trigger] columns_of(*m)[c]).len() == n,
{
    m.inner.nrows()
}

/// Calls `nalgebra::Matrix::column`, which panics when `c` is not the index
/// of a column, and copies the entries of its view out in order. Assumed:
/// they are the entries of column `c`.
#[verifier::external_body]
pub(crate) fn matrix_column(m: &WeightMatrix, c: usize) -> (column: Vec<u64>)
    requires
        c < columns_of(*m).len(),
    ensures
        column@ == columns_of(*m)[c as int],
{
    m.inner.column(c).iter().cloned().collect()
}

impl WeightMatrix {
    /// Builds the matrix with `nrows` rows and `ncols` columns whose entries,
    /// read column by column, are `data`. Returns `None` when `data` does not
    /// hold exactly `nrows * ncols` entries.
    pub fn from_vec(nrows: usize, ncols: usize, data: Vec<u64>) -> (m: Option<WeightMatrix>)
        ensures
            m is Some <==> nrows * ncols == data.len(),
            m matches Some(w) ==> columns_of(w) == column_major(data@, nrows as nat, ncols as nat),
    {
        match nrows.checked_mul(ncols) {
            Some(size) => {
                if size == data.len() {
                    Some(matrix_from_vec(nrows, ncols, data))
                } else {
                    None
                }
            },
            None => None,
        }
    }
}

} // verus!
