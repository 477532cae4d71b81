//! A two-dimensional matrix of counts kept in an `ndarray::Array2<usize>`.
use vstd::prelude::*;

verus! {

/// A two-dimensional matrix of counts, stored in an `ndarray::Array2<usize>`.
///
/// Verus cannot declare ndarray's `ArrayBase` (its `RawData` bound is an
/// outside trait), so the array sits in a field that Verus does not see;
/// `matrix_cells` and `matrix_shape` name what it holds.
#[verifier::external_body]
pub struct CountMatrix {
    inner: ndarray::Array2<usize>,
}

/// What a count matrix holds: its cells keyed by `(row, column)`.
pub uninterp spec fn matrix_cells(m: CountMatrix) -> Map<(usize, usize), usize>;

/// The `(rows, columns)` shape that a count matrix was made with.
pub uninterp spec fn matrix_shape(m: CountMatrix) -> (usize, usize);

/// `ndarray::Array2::zeros((n, n))`: claims the new matrix is `n` by `n`
/// and that every in-range cell holds 0. ndarray panics when the element
/// count overflows `isize` (and the allocation would, past `isize::MAX` bytes),
/// which the `requires` rules out.
#[verifier::external_body]
fn array2_zeros(n: usize) -> (m: CountMatrix)
    requires
        n * n * 8 <= isize::MAX,
    ensures
        matrix_shape(m) == (n, n),
        forall|i: usize, j: usize|
            i < n && j < n ==> #[trigger] matrix_cells(m).contains_key((i, j)) && matrix_cells(
                m,
            )[(i, j)] == 0,
{
    CountMatrix { inner: ndarray::Array2::zeros((n, n)) }
}

/// `IndexMut` of `ndarray::ArrayBase`, written through: claims the cell at
/// `(i, j)` now holds `v`, and the shape and every other cell stay. ndarray
/// panics on an index out of bounds, which `requires` rules out.
#[verifier::external_body]
fn array2_set(m: &mut CountMatrix, i: usize, j: usize, v: usize)
    requires
        i < matrix_shape(*old(m)).0,
        j < matrix_shape(*old(m)).1,
    ensures
        matrix_shape(*final(m)) == matrix_shape(*old(m)),
        matrix_cells(*final(m)) == matrix_cells(*old(m)).insert((i, j), v),
{
    m.inner[[i, j]] = v;
}

/// `Index` of `ndarray::ArrayBase`: claims it reads the cell at `(i, j)`.
/// ndarray panics on an index out of bounds, which `requires` rules out.
#[verifier::external_body]
fn array2_get(m: &CountMatrix, i: usize, j: usize) -> (v: usize)
    requires
        i < matrix_shape(*m).0,
        j < matrix_shape(*m).1,
    ensures
        v == matrix_cells(*m)[(i, j)],
{
    m.inner[[i, j]]
}

/// `ndarray::ArrayBase::nrows`: claims it returns the number of rows.
#[verifier::external_body]
fn array2_nrows(m: &CountMatrix) -> (r: usize)
    ensures
        r == matrix_shape(*m).0,
{
    m.inner.nrows()
}

/// `ndarray::ArrayBase::ncols`: claims it returns the number of columns.
#[verifier::external_body]
fn array2_ncols(m: &CountMatrix) -> (c: usize)
    ensures
        c == matrix_shape(*m).1,
{
    m.inner.ncols()
}

impl CountMatrix {
    /// The matrix's well-formedness: every in-range cell is present.
    pub open spec fn wf(self) -> bool {
        forall|i: usize, j: usize|
            i < matrix_shape(self).0 && j < matrix_shape(self).1 ==> #[trigger] matrix_cells(
                self,
            ).contains_key((i, j))
    }

    /// The count at `(i, j)`, as a mathematical integer.
    pub open spec fn cell(self, i: int, j: int) -> int {
        matrix_cells(self)[(i as usize, j as usize)] as int
    }

    pub open spec fn n_rows(self) -> nat {
        matrix_shape(self).0 as nat
    }

    pub open spec fn n_cols(self) -> nat {
        matrix_shape(self).1 as nat
    }

    /// A new `n` by `n` matrix of zeros.
    pub fn zeros(n: usize) -> (m: Self)
        requires
            n * n * 8 <= isize::MAX,
        ensures
            m.wf(),
            m.n_rows() == n,
            m.n_cols() == n,
            forall|i: int, j: int| 0 <= i < n && 0 <= j < n ==> #[trigger] m.cell(i, j) == 0,
    {
        let m = array2_zeros(n);
        assert forall|i: int, j: int| 0 <= i < n && 0 <= j < n implies #[trigger] m.cell(i, j) == 0 by {
            assert(matrix_cells(m).contains_key((i as usize, j as usize)));
        }
        m
    }

    /// Add one to the count at `(i, j)`.
    pub fn increment(&mut self, i: usize, j: usize)
        requires
            old(self).wf(),
            i < old(self).n_rows(),
            j < old(self).n_cols(),
            old(self).cell(i as int, j as int) < usize::MAX,
        ensures
            final(self).wf(),
            final(self).n_rows() == old(self).n_rows(),
            final(self).n_cols() == old(self).n_cols(),
            final(self).cell(i as int, j as int) == old(self).cell(i as int, j as int) + 1,
            forall|r: int, c: int|
                0 <= r < old(self).n_rows() && 0 <= c < old(self).n_cols() && !(r == i && c == j)
                    ==> #[trigger] final(self).cell(r, c) == old(self).cell(r, c),
    {
        let v = array2_get(self, i, j);
        array2_set(self, i, j, v + 1);
    }

    /// The count at `(i, j)`.
    pub fn get(&self, i: usize, j: usize) -> (v: usize)
        requires
            i < self.n_rows(),
            j < self.n_cols(),
        ensures
            v == self.cell(i as int, j as int),
    {
        array2_get(self, i, j)
    }

    /// The number of rows.
    pub fn nrows(&self) -> (r: usize)
        ensures
            r == self.n_rows(),
    {
        array2_nrows(self)
    }

    /// The number of columns.
    pub fn ncols(&self) -> (c: usize)
        ensures
            c == self.n_cols(),
    {
        array2_ncols(self)
    }
}

}
