//! Matrices as mathematical values, and the operations on them that the
//! executable code is proved against.

use crate::scalar::Scalar;
use vstd::prelude::*;

verus! {

/// A dense matrix as a value: its shape and its cells in row-major order.
pub struct MatrixView<T> {
    pub rows: nat,
    pub cols: nat,
    pub cells: Seq<T>,
}

impl<T> MatrixView<T> {
    /// There are exactly `rows * cols` cells.
    pub open spec fn wf(self) -> bool {
        self.cells.len() == self.rows * self.cols
    }

    /// The cell in row `i`, column `j`.
    pub open spec fn at(self, i: int, j: int) -> T {
        self.cells[i * self.cols + j]
    }

    /// Row `i`, left to right.
    pub open spec fn row(self, i: int) -> Seq<T> {
        Seq::new(self.cols, |j: int| self.at(i, j))
    }

    /// Column `j`, top to bottom.
    pub open spec fn col(self, j: int) -> Seq<T> {
        Seq::new(self.rows, |i: int| self.at(i, j))
    }

    /// As many rows and as many columns as `other`.
    pub open spec fn same_shape(self, other: Self) -> bool {
        self.rows == other.rows && self.cols == other.cols
    }

    /// A column vector: any number of rows, one column.
    pub open spec fn is_column(self, rows: nat) -> bool {
        self.rows == rows && self.cols == 1
    }

    /// The matrix of the given shape whose cell `(i, j)` is `f(i, j)`.
    pub open spec fn from_fn(rows: nat, cols: nat, f: spec_fn(int, int) -> T) -> Self {
        MatrixView {
            rows,
            cols,
            cells: Seq::new(rows * cols, |p: int| f(p / (cols as int), p % (cols as int))),
        }
    }

    /// The matrix of the given shape with every cell equal to `value`.
    pub open spec fn filled(rows: nat, cols: nat, value: T) -> Self {
        MatrixView { rows, cols, cells: Seq::new(rows * cols, |p: int| value) }
    }

    /// The same shape with other cells.
    pub open spec fn with_cells(self, cells: Seq<T>) -> Self {
        MatrixView { rows: self.rows, cols: self.cols, cells }
    }

    /// Rows and columns exchanged.
    pub open spec fn transposed(self) -> Self {
        Self::from_fn(self.cols, self.rows, |i: int, j: int| self.at(j, i))
    }
}

/// The dot product of two sequences, accumulated from the scalar zero by
/// adding one product after another, first index first.  Only the first
/// `a.len()` entries of `b` take part.
pub open spec fn dot<T: Scalar>(a: Seq<T>, b: Seq<T>) -> T
    decreases a.len(),
{
    if a.len() == 0 {
        T::zero_value()
    } else {
        dot(a.drop_last(), b.take(a.len() - 1)).sum(a.last().product(b[a.len() - 1]))
    }
}

impl<T: Scalar> MatrixView<T> {
    /// The matrix of the given shape with every cell zero.
    pub open spec fn zeroed(rows: nat, cols: nat) -> Self {
        Self::filled(rows, cols, T::zero_value())
    }

    /// Cell by cell sum.
    pub open spec fn plus(self, other: Self) -> Self {
        self.with_cells(Seq::new(self.cells.len(), |p: int| self.cells[p].sum(other.cells[p])))
    }

    /// Cell by cell difference.
    pub open spec fn minus(self, other: Self) -> Self {
        self.with_cells(
            Seq::new(self.cells.len(), |p: int| self.cells[p].difference(other.cells[p])),
        )
    }

    /// Cell by cell product.
    pub open spec fn hadamard(self, other: Self) -> Self {
        self.with_cells(
            Seq::new(self.cells.len(), |p: int| self.cells[p].product(other.cells[p])),
        )
    }

    /// Every cell multiplied by `factor`.
    pub open spec fn scaled(self, factor: T) -> Self {
        self.with_cells(Seq::new(self.cells.len(), |p: int| self.cells[p].product(factor)))
    }

    /// The slope of the logistic function at every cell, read off the
    /// function's value `a` there: `a * (1 - a)`.
    pub open spec fn logistic_slope(self) -> Self {
        self.with_cells(
            Seq::new(
                self.cells.len(),
                |p: int| self.cells[p].product(T::one_value().difference(self.cells[p])),
            ),
        )
    }

    /// The matrix product: cell `(i, j)` is the dot product of row `i` of
    /// `self` with column `j` of `other`.
    pub open spec fn times(self, other: Self) -> Self {
        Self::from_fn(
            self.rows,
            other.cols,
            |i: int, j: int| dot(self.row(i), other.col(j)),
        )
    }
}

/// `f` can be called on every cell of the matrix.
pub open spec fn takes<T, F: Fn(T) -> T>(f: F, matrix: MatrixView<T>) -> bool {
    forall|p: int| 0 <= p < matrix.cells.len() ==> call_requires(f, (#[trigger] matrix.cells[p],))
}

/// `after` has the shape of `before`, and each of its cells is a value that
/// `f` may return for the cell of `before` in the same place.
pub open spec fn applies<T, F: Fn(T) -> T>(f: F, before: MatrixView<T>, after: MatrixView<T>) -> bool {
    &&& after.same_shape(before)
    &&& after.cells.len() == before.cells.len()
    &&& forall|p: int|
        0 <= p < before.cells.len() ==> call_ensures(f, (before.cells[p],), #[trigger] after.cells[p])
}

/// `f` is a function: it allows one result for each argument.
pub open spec fn is_function<T, F: Fn(T) -> T>(f: F) -> bool {
    forall|x: T, y: T, z: T|
        #![trigger call_ensures(f, (x,), y), call_ensures(f, (x,), z)]
        call_ensures(f, (x,), y) && call_ensures(f, (x,), z) ==> y == z
}

/// `after` has the shape of `before`, and its cell at row-major position
/// `p` is a value that `draw` may return for sample number `first + p`: the
/// cells hold consecutive samples, one each, in row-major order.
pub open spec fn drawn_from<T, F: Fn(usize) -> T>(
    draw: F,
    first: nat,
    before: MatrixView<T>,
    after: MatrixView<T>,
) -> bool {
    &&& after.same_shape(before)
    &&& after.cells.len() == before.cells.len()
    &&& forall|p: int|
        0 <= p < after.cells.len() ==> call_ensures(
            draw,
            ((first + p) as usize,),
            #[trigger] after.cells[p],
        )
}

/// `draw` is a sequence of samples: it allows one value for each sample
/// number.
pub open spec fn is_sequence<T, F: Fn(usize) -> T>(draw: F) -> bool {
    forall|k: usize, y: T, z: T|
        #![trigger call_ensures(draw, (k,), y), call_ensures(draw, (k,), z)]
        call_ensures(draw, (k,), y) && call_ensures(draw, (k,), z) ==> y == z
}

/// Row-major position `i * cols + j` lies inside a `rows * cols` block and
/// splits back into `i` and `j`.
pub proof fn lemma_flat_index(rows: nat, cols: nat, i: int, j: int)
    requires
        0 <= i < rows,
        0 <= j < cols,
    ensures
        0 <= i * cols + j < rows * cols,
        (i * cols + j) / (cols as int) == i,
        (i * cols + j) % (cols as int) == j,
{
    assert(0 <= i * cols) by (nonlinear_arith)
        requires
            0 <= i,
            0 <= cols,
    ;
    assert((i + 1) * cols <= rows * cols) by (nonlinear_arith)
        requires
            i + 1 <= rows,
            0 <= cols,
    ;
    assert((i + 1) * cols == i * cols + cols) by (nonlinear_arith);
    vstd::arithmetic::div_mod::lemma_fundamental_div_mod_converse(
        i * cols + j,
        cols as int,
        i,
        j,
    );
}

/// What `from_fn` puts in cell `(i, j)`.
pub proof fn lemma_from_fn_at<T>(rows: nat, cols: nat, f: spec_fn(int, int) -> T, i: int, j: int)
    requires
        0 <= i < rows,
        0 <= j < cols,
    ensures
        MatrixView::from_fn(rows, cols, f).at(i, j) == f(i, j),
        MatrixView::from_fn(rows, cols, f).wf(),
{
    lemma_flat_index(rows, cols, i, j);
}

/// What a function makes of a matrix, cell by cell, is one matrix.
pub proof fn lemma_applies_unique<T, F: Fn(T) -> T>(
    f: F,
    before: MatrixView<T>,
    a: MatrixView<T>,
    b: MatrixView<T>,
)
    requires
        is_function(f),
        applies(f, before, a),
        applies(f, before, b),
    ensures
        a == b,
{
    assert forall|p: int| 0 <= p < a.cells.len() implies a.cells[p] == b.cells[p] by {
        assert(call_ensures(f, (before.cells[p],), a.cells[p]));
        assert(call_ensures(f, (before.cells[p],), b.cells[p]));
    }
    assert(a.cells =~= b.cells);
}

/// What a sequence of samples makes of a matrix depends on the samples and
/// on the shape only, not on the cells that were there before.
pub proof fn lemma_drawn_from_unique<T, F: Fn(usize) -> T>(
    draw: F,
    first: nat,
    x: MatrixView<T>,
    y: MatrixView<T>,
    a: MatrixView<T>,
    b: MatrixView<T>,
)
    requires
        is_sequence(draw),
        x.same_shape(y),
        x.cells.len() == y.cells.len(),
        drawn_from(draw, first, x, a),
        drawn_from(draw, first, y, b),
    ensures
        a == b,
{
    assert forall|p: int| 0 <= p < a.cells.len() implies a.cells[p] == b.cells[p] by {
        assert(call_ensures(draw, ((first + p) as usize,), a.cells[p]));
        assert(call_ensures(draw, ((first + p) as usize,), b.cells[p]));
    }
    assert(a.cells =~= b.cells);
}

/// A zero matrix has `rows * cols` cells, and every one of them is the
/// scalar zero.
pub proof fn lemma_zeroed<T: Scalar>(rows: nat, cols: nat)
    ensures
        MatrixView::<T>::zeroed(rows, cols).wf(),
        MatrixView::<T>::zeroed(rows, cols).rows == rows,
        MatrixView::<T>::zeroed(rows, cols).cols == cols,
        MatrixView::<T>::zeroed(rows, cols).cells.len() == rows * cols,
        forall|p: int|
            0 <= p < rows * cols ==> #[trigger] MatrixView::<T>::zeroed(rows, cols).cells[p]
                == T::zero_value(),
        forall|i: int, j: int|
            0 <= i < rows && 0 <= j < cols ==> #[trigger] MatrixView::<T>::zeroed(rows, cols).at(
                i,
                j,
            ) == T::zero_value(),
{
    assert forall|i: int, j: int| 0 <= i < rows && 0 <= j < cols implies #[trigger] MatrixView::<
        T,
    >::zeroed(rows, cols).at(i, j) == T::zero_value() by {
        lemma_flat_index(rows, cols, i, j);
    }
}

/// Adding two matrices of one shape gives the same matrix in either order.
pub proof fn lemma_plus_commutes<T: Scalar>(a: MatrixView<T>, b: MatrixView<T>)
    requires
        a.wf(),
        b.wf(),
        a.same_shape(b),
    ensures
        a.plus(b) == b.plus(a),
{
    assert forall|p: int| 0 <= p < a.cells.len() implies #[trigger] a.plus(b).cells[p] == b.plus(
        a,
    ).cells[p] by {
        a.cells[p].sum_commutes(b.cells[p]);
    }
    assert(a.plus(b).cells =~= b.plus(a).cells);
}

/// Every cell of a sum is the sum of the two cells in its place.
pub proof fn lemma_plus_at<T: Scalar>(a: MatrixView<T>, b: MatrixView<T>, i: int, j: int)
    requires
        a.wf(),
        b.wf(),
        a.same_shape(b),
        0 <= i < a.rows,
        0 <= j < a.cols,
    ensures
        a.plus(b).same_shape(a),
        a.plus(b).wf(),
        a.plus(b).at(i, j) == a.at(i, j).sum(b.at(i, j)),
{
    lemma_flat_index(a.rows, a.cols, i, j);
}

/// Every cell of a product is the dot product of a row of the left matrix
/// and a column of the right one.
pub proof fn lemma_times_at<T: Scalar>(a: MatrixView<T>, b: MatrixView<T>, i: int, j: int)
    requires
        0 <= i < a.rows,
        0 <= j < b.cols,
    ensures
        a.times(b).rows == a.rows,
        a.times(b).cols == b.cols,
        a.times(b).wf(),
        a.times(b).at(i, j) == dot(a.row(i), b.col(j)),
{
    lemma_from_fn_at(a.rows, b.cols, |i: int, j: int| dot(a.row(i), b.col(j)), i, j);
}

/// A dot product that never leaves zero is zero: the left sequence holds
/// zeros only, and adding zero times an entry of the right one to zero gives
/// zero again.
pub proof fn lemma_dot_of_zeros<T: Scalar>(a: Seq<T>, b: Seq<T>)
    requires
        a.len() <= b.len(),
        forall|k: int| 0 <= k < a.len() ==> #[trigger] a[k] == T::zero_value(),
        forall|k: int|
            0 <= k < a.len() ==> T::zero_value().sum(T::zero_value().product(#[trigger] b[k]))
                == T::zero_value(),
    ensures
        dot(a, b) == T::zero_value(),
    decreases a.len(),
{
    if a.len() > 0 {
        let n = a.len() - 1;
        assert(a.last() == a[n]);
        lemma_dot_of_zeros(a.drop_last(), b.take(n));
    }
}

} // verus!
