//! The dense matrix container and its arithmetic.

use crate::algebra::{applies, dot, drawn_from, lemma_flat_index, takes, MatrixView};
use crate::scalar::Scalar;
use crate::text::{
    can_write, lemma_rendered_cells_prefix, rendered_cells, renders, shown, string_views,
};
use vstd::prelude::*;
use vstd::std_specs::iter::IteratorSpec;

verus! {

/// Why a matrix operation was refused.
#[derive(Debug)]
pub enum MatrixError {
    /// The requested shape is empty, or does not match the data supplied.
    CreateError,
    /// The requested cell lies past the end of the matrix.
    GetError,
}

/// A `rows` by `cols` matrix that owns its cells, stored row after row.
#[derive(Debug)]
pub struct Matrix<T> {
    rows: usize,
    cols: usize,
    data: Vec<T>,
}

impl<T> View for Matrix<T> {
    type V = MatrixView<T>;

    closed spec fn view(&self) -> MatrixView<T> {
        MatrixView { rows: self.rows as nat, cols: self.cols as nat, cells: self.data@ }
    }
}

impl<T> Matrix<T> {
    /// The matrix holds exactly `rows * cols` cells.  Every constructor
    /// establishes this and every method keeps it.
    pub open spec fn wf(&self) -> bool {
        self@.wf()
    }

    /// Both dimensions, and the number of cells of a well-formed matrix,
    /// are machine sized.
    pub proof fn lemma_fits(&self)
        ensures
            self@.rows <= usize::MAX,
            self@.cols <= usize::MAX,
            self@.cells.len() <= usize::MAX,
    {
        assert(self.data@.len() == self.data.len());
    }

    /// The number of columns.
    pub fn cols(&self) -> (n: usize)
        ensures
            n == self@.cols,
    {
        return self.cols;
    }

    /// The number of rows.
    pub fn rows(&self) -> (n: usize)
        ensures
            n == self@.rows,
    {
        return self.rows;
    }

    /// The number of cells.
    pub fn size(&self) -> (n: usize)
        requires
            self.wf(),
        ensures
            n == self@.rows * self@.cols,
            n == self@.cells.len(),
    {
        assert(self.data@.len() == self.data.len());
        return self.rows * self.cols;
    }

    /// All cells in row-major order, for reading.  The iterator is the one
    /// of a slice that holds the cells, so a `for` loop over it can be
    /// reasoned about as over that slice.
    pub fn iter(&self) -> (it: std::slice::Iter<'_, T>)
        ensures
            vstd::std_specs::slice::into_iter_elts(it) == self@.cells,
            IteratorSpec::remaining(&it) == self@.cells.as_ref(),
            IteratorSpec::decrease(&it) is Some,
            IteratorSpec::initial_value_relation(&it, &it),
    {
        self.data.iter()
    }

    /// All cells in row-major order, for writing in place.  Whatever the
    /// caller stores through the slice becomes the content of the matrix; a
    /// slice never changes its length, and with its length kept the matrix
    /// stays well formed.
    pub fn iter_mut(&mut self) -> (cells: &mut [T])
        ensures
            cells@ == old(self)@.cells,
            final(self)@ == old(self)@.with_cells(final(cells)@),
            old(self).wf() && final(cells)@.len() == cells@.len() ==> final(self).wf(),
    {
        self.data.as_mut_slice()
    }

    /// The rows, first to last, each as a slice of `cols` cells.
    pub fn row_chunks(&self) -> (chunks: Vec<&[T]>)
        requires
            self.wf(),
            self@.cols > 0,
        ensures
            chunks@.len() == self@.rows,
            forall|i: int| 0 <= i < self@.rows ==> (#[trigger] chunks@[i])@ == self@.row(i),
    {
        let mut chunks: Vec<&[T]> = Vec::new();
        let mut i: usize = 0;
        while i < self.rows
            invariant
                self.wf(),
                self@.cols > 0,
                i <= self.rows,
                chunks@.len() == i,
                forall|k: int| 0 <= k < i ==> (#[trigger] chunks@[k])@ == self@.row(k),
            decreases self.rows - i,
        {
            proof {
                lemma_row_start(self.rows as nat, self.cols as nat, i as int);
                assert(self.data@.len() == self.data.len());
            }
            let start = i * self.cols;
            let chunk = vstd::slice::slice_subrange(self.data.as_slice(), start, start + self.cols);
            assert(chunk@ =~= self@.row(i as int));
            chunks.push(chunk);
            i += 1;
        }
        chunks
    }

    /// The cell at row-major position `row * cols + col`, for writing.
    ///
    /// Only the position is checked: a column index past the end of its row
    /// reaches into the rows below, as long as the position exists.
    pub fn get_mut(&mut self, row: usize, col: usize) -> (r: Result<&mut T, MatrixError>)
        requires
            old(self).wf(),
        ensures
            match r {
                Ok(cell) => {
                    let p = row * old(self)@.cols + col;
                    &&& p < old(self)@.cells.len()
                    &&& *cell == old(self)@.cells[p]
                    &&& final(self)@ == old(self)@.with_cells(
                        old(self)@.cells.update(p, *final(cell)),
                    )
                    &&& final(self).wf()
                },
                Err(e) => {
                    &&& e is GetError
                    &&& row * old(self)@.cols + col >= old(self)@.cells.len()
                    &&& final(self)@ == old(self)@
                },
            },
    {
        if row < self.rows {
            proof {
                lemma_row_start(self.rows as nat, self.cols as nat, row as int);
                assert(self.data@.len() == self.data.len());
            }
            let start = row * self.cols;
            if col < self.data.len() - start {
                return Ok(&mut self.data[start + col]);
            }
        } else {
            assert(row * self.cols >= self.rows * self.cols) by (nonlinear_arith)
                requires
                    row >= self.rows,
            ;
        }
        return Err(MatrixError::GetError);
    }

    /// The cell at row-major position `row * cols + col`, for reading.
    ///
    /// Only the position is checked: a column index past the end of its row
    /// reaches into the rows below, as long as the position exists.
    pub fn get(&self, row: usize, col: usize) -> (r: Result<&T, MatrixError>)
        requires
            self.wf(),
        ensures
            match r {
                Ok(cell) => {
                    let p = row * self@.cols + col;
                    &&& p < self@.cells.len()
                    &&& *cell == self@.cells[p]
                },
                Err(e) => {
                    &&& e is GetError
                    &&& row * self@.cols + col >= self@.cells.len()
                },
            },
    {
        if row < self.rows {
            proof {
                lemma_row_start(self.rows as nat, self.cols as nat, row as int);
                assert(self.data@.len() == self.data.len());
            }
            let start = row * self.cols;
            if col < self.data.len() - start {
                return Ok(&self.data[start + col]);
            }
        } else {
            assert(row * self.cols >= self.rows * self.cols) by (nonlinear_arith)
                requires
                    row >= self.rows,
            ;
        }
        return Err(MatrixError::GetError);
    }

    /// A matrix of the given shape over the cells supplied, which must be
    /// exactly `rows * cols` many.
    pub fn from_vec(rows: usize, cols: usize, data: Vec<T>) -> (r: Result<Self, MatrixError>)
        ensures
            match r {
                Ok(m) => {
                    &&& data@.len() == rows * cols
                    &&& m.wf()
                    &&& m@ == (MatrixView { rows: rows as nat, cols: cols as nat, cells: data@ })
                },
                Err(e) => e is CreateError && data@.len() != rows * cols,
            },
    {
        let fits = match rows.checked_mul(cols) {
            Some(n) => n == data.len(),
            None => false,
        };
        if !fits {
            assert(data@.len() == data.len());
            return Err(MatrixError::CreateError);
        }
        return Ok(Matrix { rows, cols, data });
    }

    /// Overwrites every cell with `value`.
    pub fn fill(&mut self, value: T) where T: Copy
        ensures
            final(self)@ == old(self)@.with_cells(
                Seq::new(old(self)@.cells.len(), |p: int| value),
            ),
            old(self).wf() ==> final(self).wf(),
    {
        let n = self.data.len();
        let mut i: usize = 0;
        while i < n
            invariant
                i <= n,
                n == self.data@.len(),
                n == old(self).data@.len(),
                self.rows == old(self).rows,
                self.cols == old(self).cols,
                forall|k: int| 0 <= k < i ==> self.data@[k] == value,
            decreases n - i,
        {
            self.data[i] = value;
            i += 1;
        }
        assert(self.data@ =~= Seq::new(old(self)@.cells.len(), |p: int| value));
    }
}

impl<T: Copy> Matrix<T> {
    /// Replaces every cell by what `logistic` makes of it.  The function is
    /// the caller's: the library fixes where it is applied, not what it
    /// computes.
    pub fn sigmoid<F: Fn(T) -> T>(&mut self, logistic: &F)
        requires
            takes(*logistic, old(self)@),
        ensures
            applies(*logistic, old(self)@, final(self)@),
            old(self).wf() ==> final(self).wf(),
    {
        let n = self.data.len();
        let mut i: usize = 0;
        while i < n
            invariant
                i <= n,
                n == old(self).data@.len(),
                self.data@.len() == n,
                self.rows == old(self).rows,
                self.cols == old(self).cols,
                old(self)@.cells == old(self).data@,
                forall|p: int|
                    0 <= p < n ==> call_requires(*logistic, (#[trigger] old(self)@.cells[p],)),
                forall|p: int|
                    0 <= p < i ==> call_ensures(
                        *logistic,
                        (old(self).data@[p],),
                        #[trigger] self.data@[p],
                    ),
                forall|p: int| i <= p < n ==> self.data@[p] == old(self).data@[p],
            decreases n - i,
        {
            let x = logistic(self.data[i]);
            self.data[i] = x;
            i += 1;
        }
    }

    /// The matrix written out for a human reader, with `show` writing each
    /// cell: the cells between brackets, a blank after each, one row per
    /// line.
    pub fn to_string<F: Fn(T) -> String>(&self, show: &F) -> (text: String)
        requires
            self.wf(),
            can_write(*show, self@),
        ensures
            renders(*show, self@, text@),
    {
        let n = self.data.len();
        let mut text = String::new();
        let ghost mut parts: Seq<String> = Seq::empty();
        if n == 0 {
            text.push_str("[]");
            assert(text@ =~= "[]"@);
            assert(shown(*show, self@.cells, parts));
            return text;
        }
        text.push_str("[ ");
        let mut i: usize = 0;
        while i < n
            invariant
                self.wf(),
                n == self.data@.len(),
                n > 0,
                i <= n,
                forall|p: int|
                    0 <= p < n ==> call_requires(*show, (#[trigger] self@.cells[p],)),
                parts.len() == i,
                forall|p: int|
                    0 <= p < i ==> call_ensures(*show, (self@.cells[p],), #[trigger] parts[p]),
                text@ == "[ "@ + rendered_cells(
                    self.cols as nat,
                    n as nat,
                    string_views(parts),
                    i as nat,
                ),
            decreases n - i,
        {
            let ghost before = string_views(parts);
            assert(self@.cells[i as int] == self.data@[i as int]);
            let cell = show(self.data[i]);
            text.push_str(cell.as_str());
            text.push_str(" ");
            proof {
                parts = parts.push(cell);
                lemma_rendered_cells_prefix(
                    self.cols as nat,
                    n as nat,
                    before,
                    string_views(parts),
                    i as nat,
                );
                assert(string_views(parts)[i as int] == cell@);
                assert(self.cols > 0) by (nonlinear_arith)
                    requires
                        n == self.rows * self.cols,
                        n > 0,
                ;
            }
            if i + 1 >= n {
                text.push_str("]");
            } else if (i + 1) % self.cols == 0 {
                text.push_str("\n   ");
            }
            assert(text@ =~= "[ "@ + rendered_cells(
                self.cols as nat,
                n as nat,
                string_views(parts),
                (i + 1) as nat,
            ));
            i += 1;
        }
        assert(shown(*show, self@.cells, parts));
        assert(string_views(parts).len() == n);
        text
    }

    /// Replaces every cell by a sample of its own: the cell at row-major
    /// position `p` gets sample number `p` of `draw`.
    pub fn rand<F: Fn(usize) -> T>(&mut self, draw: &F)
        requires
            forall|k: usize| k < old(self)@.cells.len() ==> call_requires(*draw, (k,)),
        ensures
            drawn_from(*draw, 0, old(self)@, final(self)@),
            old(self).wf() ==> final(self).wf(),
    {
        assert(self.data@.len() == self.data.len());
        self.rand_from(0, draw);
    }

    /// Replaces every cell by a sample of its own, counting from `first`:
    /// the cell at row-major position `p` gets sample number `first + p` of
    /// `draw`.  The sample numbers must be countable in a `usize`.
    pub fn rand_from<F: Fn(usize) -> T>(&mut self, first: usize, draw: &F)
        requires
            first + old(self)@.cells.len() <= usize::MAX,
            forall|k: usize|
                first <= k < first + old(self)@.cells.len() ==> call_requires(*draw, (k,)),
        ensures
            drawn_from(*draw, first as nat, old(self)@, final(self)@),
            old(self).wf() ==> final(self).wf(),
    {
        let n = self.data.len();
        let mut i: usize = 0;
        while i < n
            invariant
                i <= n,
                n == old(self).data@.len(),
                self.data@.len() == n,
                self.rows == old(self).rows,
                self.cols == old(self).cols,
                first + n <= usize::MAX,
                forall|k: usize| first <= k < first + n ==> call_requires(*draw, (k,)),
                forall|p: int|
                    0 <= p < i ==> call_ensures(
                        *draw,
                        ((first + p) as usize,),
                        #[trigger] self.data@[p],
                    ),
            decreases n - i,
        {
            let x = draw(first + i);
            self.data[i] = x;
            i += 1;
        }
    }
}

impl<T: Copy> Clone for Matrix<T> {
    /// An independent copy with the same shape and cells.
    fn clone(&self) -> (copy: Self)
        ensures
            copy@ == self@,
    {
        let n = self.data.len();
        let mut data: Vec<T> = Vec::with_capacity(n);
        let mut i: usize = 0;
        while i < n
            invariant
                i <= n,
                n == self.data@.len(),
                data@ == self.data@.take(i as int),
            decreases n - i,
        {
            data.push(self.data[i]);
            assert(data@ =~= self.data@.take(i + 1));
            i += 1;
        }
        assert(data@ =~= self.data@);
        Matrix { rows: self.rows, cols: self.cols, data }
    }
}

impl<T: Scalar> Matrix<T> {
    /// A matrix of the given shape with every cell zero.  Both dimensions
    /// must be positive.  The caller sees to it that the number of cells can
    /// be counted in a `usize`.
    pub fn new(rows: usize, cols: usize) -> (r: Result<Self, MatrixError>)
        requires
            rows * cols <= usize::MAX,
        ensures
            match r {
                Ok(m) => {
                    &&& rows > 0 && cols > 0
                    &&& m.wf()
                    &&& m@ == MatrixView::<T>::zeroed(rows as nat, cols as nat)
                },
                Err(e) => e is CreateError && (rows == 0 || cols == 0),
            },
    {
        if rows <= 0 || cols <= 0 {
            return Err(MatrixError::CreateError);
        }
        let n = rows * cols;
        let mut data: Vec<T> = Vec::with_capacity(n);
        let mut i: usize = 0;
        while i < n
            invariant
                i <= n,
                data@.len() == i,
                forall|k: int| 0 <= k < i ==> data@[k] == T::zero_value(),
            decreases n - i,
        {
            data.push(T::zero());
            i += 1;
        }
        assert(data@ =~= MatrixView::<T>::zeroed(rows as nat, cols as nat).cells);
        return Ok(Matrix { rows, cols, data });
    }

    /// The cell by cell sum of two matrices of one shape.
    pub fn add(self, rhs: Self) -> (out: Self)
        requires
            self.wf(),
            rhs.wf(),
            self@.same_shape(rhs@),
        ensures
            out@ == self@.plus(rhs@),
            out.wf(),
    {
        let mut out = self;
        let n = out.data.len();
        let mut i: usize = 0;
        while i < n
            invariant
                i <= n,
                n == self.data@.len(),
                n == rhs.data@.len(),
                out.data@.len() == n,
                out.rows == self.rows,
                out.cols == self.cols,
                forall|k: int| 0 <= k < i ==> out.data@[k] == self.data@[k].sum(rhs.data@[k]),
                forall|k: int| i <= k < n ==> out.data@[k] == self.data@[k],
            decreases n - i,
        {
            let x = out.data[i].plus(rhs.data[i]);
            out.data[i] = x;
            i += 1;
        }
        assert(out.data@ =~= self@.plus(rhs@).cells);
        out
    }

    /// The cell by cell difference of two matrices of one shape.
    pub fn sub(self, rhs: Self) -> (out: Self)
        requires
            self.wf(),
            rhs.wf(),
            self@.same_shape(rhs@),
        ensures
            out@ == self@.minus(rhs@),
            out.wf(),
    {
        let mut out = self;
        let n = out.data.len();
        let mut i: usize = 0;
        while i < n
            invariant
                i <= n,
                n == self.data@.len(),
                n == rhs.data@.len(),
                out.data@.len() == n,
                out.rows == self.rows,
                out.cols == self.cols,
                forall|k: int|
                    0 <= k < i ==> out.data@[k] == self.data@[k].difference(rhs.data@[k]),
                forall|k: int| i <= k < n ==> out.data@[k] == self.data@[k],
            decreases n - i,
        {
            let x = out.data[i].minus(rhs.data[i]);
            out.data[i] = x;
            i += 1;
        }
        assert(out.data@ =~= self@.minus(rhs@).cells);
        out
    }

    /// The cell by cell product of two matrices of one shape.
    pub fn hadamard(self, rhs: Self) -> (out: Self)
        requires
            self.wf(),
            rhs.wf(),
            self@.same_shape(rhs@),
        ensures
            out@ == self@.hadamard(rhs@),
            out.wf(),
    {
        let mut out = self;
        let n = out.data.len();
        let mut i: usize = 0;
        while i < n
            invariant
                i <= n,
                n == self.data@.len(),
                n == rhs.data@.len(),
                out.data@.len() == n,
                out.rows == self.rows,
                out.cols == self.cols,
                forall|k: int| 0 <= k < i ==> out.data@[k] == self.data@[k].product(rhs.data@[k]),
                forall|k: int| i <= k < n ==> out.data@[k] == self.data@[k],
            decreases n - i,
        {
            let x = out.data[i].times(rhs.data[i]);
            out.data[i] = x;
            i += 1;
        }
        assert(out.data@ =~= self@.hadamard(rhs@).cells);
        out
    }

    /// Every cell multiplied by `factor`.
    pub fn scale(self, factor: T) -> (out: Self)
        ensures
            out@ == self@.scaled(factor),
            self.wf() ==> out.wf(),
    {
        let mut out = self;
        let n = out.data.len();
        let mut i: usize = 0;
        while i < n
            invariant
                i <= n,
                n == self.data@.len(),
                out.data@.len() == n,
                out.rows == self.rows,
                out.cols == self.cols,
                forall|k: int| 0 <= k < i ==> out.data@[k] == self.data@[k].product(factor),
                forall|k: int| i <= k < n ==> out.data@[k] == self.data@[k],
            decreases n - i,
        {
            let x = out.data[i].times(factor);
            out.data[i] = x;
            i += 1;
        }
        assert(out.data@ =~= self@.scaled(factor).cells);
        out
    }

    /// For a matrix of logistic values `a`, the slopes `a * (1 - a)`.
    pub fn logistic_slope(&self) -> (out: Self)
        ensures
            out@ == self@.logistic_slope(),
            self.wf() ==> out.wf(),
    {
        let n = self.data.len();
        let mut data: Vec<T> = Vec::with_capacity(n);
        let mut i: usize = 0;
        while i < n
            invariant
                i <= n,
                n == self.data@.len(),
                data@.len() == i,
                forall|k: int|
                    0 <= k < i ==> data@[k] == self.data@[k].product(
                        T::one_value().difference(self.data@[k]),
                    ),
            decreases n - i,
        {
            let a = self.data[i];
            data.push(a.times(T::one().minus(a)));
            i += 1;
        }
        assert(data@ =~= self@.logistic_slope().cells);
        Matrix { rows: self.rows, cols: self.cols, data }
    }

    /// The matrix with rows and columns exchanged.
    pub fn transpose(&self) -> (out: Self)
        requires
            self.wf(),
        ensures
            out@ == self@.transposed(),
            out.wf(),
    {
        let rows = self.cols;
        let cols = self.rows;
        assert(self.data@.len() == self.data.len());
        assert(rows * cols == cols * rows) by (nonlinear_arith);
        let mut data: Vec<T> = Vec::with_capacity(rows * cols);
        let ghost cell = |i: int, j: int| self@.at(j, i);
        let mut i: usize = 0;
        while i < rows
            invariant
                self.wf(),
                rows == self.cols,
                cols == self.rows,
                i <= rows,
                cell == |i: int, j: int| self@.at(j, i),
                data@.len() == i * cols,
                forall|p: int|
                    0 <= p < data@.len() ==> data@[p] == cell(p / (cols as int), p % (cols as int)),
            decreases rows - i,
        {
            let mut j: usize = 0;
            while j < cols
                invariant
                    self.wf(),
                    rows == self.cols,
                    cols == self.rows,
                    i < rows,
                    j <= cols,
                    cell == |i: int, j: int| self@.at(j, i),
                    data@.len() == i * cols + j,
                    forall|p: int|
                        0 <= p < data@.len() ==> data@[p] == cell(
                            p / (cols as int),
                            p % (cols as int),
                        ),
                decreases cols - j,
            {
                proof {
                    lemma_flat_index(rows as nat, cols as nat, i as int, j as int);
                    lemma_flat_index(cols as nat, rows as nat, j as int, i as int);
                    assert(self.data@.len() == self.data.len());
                }
                data.push(self.data[j * rows + i]);
                j += 1;
            }
            assert((i + 1) * cols == i * cols + cols) by (nonlinear_arith);
            i += 1;
        }
        assert(data@ =~= self@.transposed().cells);
        Matrix { rows, cols, data }
    }

    /// The matrix product.  The left operand must have as many columns as the
    /// right one has rows, and the cells of the result must be countable in a
    /// `usize`; every cell of the result is accumulated from zero.
    pub fn mul(self, rhs: Self) -> (out: Self)
        requires
            self.wf(),
            rhs.wf(),
            self@.cols == rhs@.rows,
            self@.rows * rhs@.cols <= usize::MAX,
        ensures
            out@ == self@.times(rhs@),
            out.wf(),
    {
        let rows = self.rows;
        let cols = rhs.cols;
        let inner = self.cols;
        let mut data: Vec<T> = Vec::with_capacity(rows * cols);
        let ghost cell = |i: int, j: int| dot(self@.row(i), rhs@.col(j));
        let mut i: usize = 0;
        while i < rows
            invariant
                self.wf(),
                rhs.wf(),
                rows == self.rows,
                cols == rhs.cols,
                inner == self.cols,
                inner == rhs.rows,
                rows * cols <= usize::MAX,
                i <= rows,
                cell == |i: int, j: int| dot(self@.row(i), rhs@.col(j)),
                data@.len() == i * cols,
                forall|p: int|
                    0 <= p < data@.len() ==> data@[p] == cell(p / (cols as int), p % (cols as int)),
            decreases rows - i,
        {
            let mut j: usize = 0;
            while j < cols
                invariant
                    self.wf(),
                    rhs.wf(),
                    rows == self.rows,
                    cols == rhs.cols,
                    inner == self.cols,
                    inner == rhs.rows,
                    i < rows,
                    j <= cols,
                    cell == |i: int, j: int| dot(self@.row(i), rhs@.col(j)),
                    data@.len() == i * cols + j,
                    forall|p: int|
                        0 <= p < data@.len() ==> data@[p] == cell(
                            p / (cols as int),
                            p % (cols as int),
                        ),
                decreases cols - j,
            {
                let ghost left = self@.row(i as int);
                let ghost right = rhs@.col(j as int);
                let mut acc = T::zero();
                let mut k: usize = 0;
                while k < inner
                    invariant
                        self.wf(),
                        rhs.wf(),
                        rows == self.rows,
                        cols == rhs.cols,
                        inner == self.cols,
                        inner == rhs.rows,
                        i < rows,
                        j < cols,
                        k <= inner,
                        left == self@.row(i as int),
                        right == rhs@.col(j as int),
                        acc == dot(left.take(k as int), right.take(k as int)),
                    decreases inner - k,
                {
                    proof {
                        lemma_flat_index(rows as nat, inner as nat, i as int, k as int);
                        lemma_flat_index(inner as nat, cols as nat, k as int, j as int);
                        assert(self.data@.len() == self.data.len());
                        assert(rhs.data@.len() == rhs.data.len());
                        let a = left.take(k + 1);
                        assert(a.drop_last() =~= left.take(k as int));
                        assert(right.take(k + 1).take(k as int) =~= right.take(k as int));
                    }
                    acc = acc.plus(self.data[i * inner + k].times(rhs.data[k * cols + j]));
                    k += 1;
                }
                proof {
                    lemma_flat_index(rows as nat, cols as nat, i as int, j as int);
                    assert(left.take(inner as int) =~= left);
                    assert(right.take(inner as int) =~= right);
                }
                data.push(acc);
                j += 1;
            }
            assert((i + 1) * cols == i * cols + cols) by (nonlinear_arith);
            i += 1;
        }
        assert(data@ =~= self@.times(rhs@).cells);
        Matrix { rows, cols, data }
    }
}

/// The values of a sequence of matrices, in the same order.
pub open spec fn views<T>(matrices: Seq<Matrix<T>>) -> Seq<MatrixView<T>> {
    Seq::new(matrices.len(), |i: int| matrices[i]@)
}

/// Where row `i` starts and ends among `rows * cols` cells.
proof fn lemma_row_start(rows: nat, cols: nat, i: int)
    requires
        0 <= i < rows,
    ensures
        0 <= i * cols,
        i * cols + cols <= rows * cols,
{
    assert(0 <= i * cols) by (nonlinear_arith)
        requires
            0 <= i,
            0 <= cols,
    ;
    assert((i + 1) * cols <= rows * cols) by (nonlinear_arith)
        requires
            i + 1 <= rows,
            0 <= cols,
    ;
    assert((i + 1) * cols == i * cols + cols) by (nonlinear_arith);
}

} // verus!
