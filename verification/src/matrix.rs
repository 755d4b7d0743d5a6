//! Matrices of any element type: their shape, their entries row by row,
//! and the operations whose structure does not depend on the entries.

use vstd::prelude::*;

verus! {

/// The abstract value of a matrix: its shape and its entries, row by row.
pub struct MatrixModel<T> {
    pub rows: nat,
    pub cols: nat,
    pub entries: Seq<T>,
}

impl<T> MatrixModel<T> {
    /// The entries fill the shape exactly.
    pub open spec fn well_formed(self) -> bool {
        self.entries.len() == self.rows * self.cols
    }

    /// The entry in row `i` and column `j`.
    pub open spec fn entry(self, i: int, j: int) -> T {
        self.entries[i * self.cols + j]
    }

    /// Row `i`, from its first column to its last.
    pub open spec fn row(self, i: int) -> Seq<T> {
        Seq::new(self.cols, |k: int| self.entry(i, k))
    }

    /// Column `j`, from its first row to its last.
    pub open spec fn column(self, j: int) -> Seq<T> {
        Seq::new(self.rows, |k: int| self.entry(k, j))
    }
}

/// Why a matrix operation is refused.
#[derive(Clone, Copy, Debug, PartialEq, Eq, Structural)]
pub enum MatrixError {
    /// `set` was given a number of rows other than the matrix has.
    RowCountMismatch { expected: usize, got: usize },
    /// `set` was given a row whose length is not the number of columns.
    ColumnCountMismatch { expected: usize, got: usize },
    /// The two matrices of an element-wise operation differ in shape.
    ShapeMismatch,
    /// The columns of the left factor do not match the rows of the right one.
    ProductMismatch { left_rows: usize, left_cols: usize, right_rows: usize, right_cols: usize },
    /// A position outside the matrix was asked for.
    IndexOutOfBounds,
    /// The operation needs a square matrix.
    NotSquare,
    /// The operation needs a matrix with two rows or two columns.
    NotTwoByTwo,
    /// Elimination met a column whose largest candidate pivot is negligible.
    Singular,
    /// A 2x2 matrix whose determinant is zero has no inverse.
    NotInvertible,
}

/// Row-major position of row `i`, column `j` lies inside a `rows` by `cols` table.
pub proof fn lemma_position_in_table(i: int, j: int, rows: int, cols: int)
    requires
        0 <= i < rows,
        0 <= j < cols,
    ensures
        0 <= i * cols + j < rows * cols,
        i * cols + j < (i + 1) * cols,
        (i + 1) * cols <= rows * cols,
{
    assert(0 <= i * cols) by (nonlinear_arith)
        requires 0 <= i, 0 <= cols;
    assert((i + 1) * cols == i * cols + cols) by (nonlinear_arith);
    assert((i + 1) * cols <= rows * cols) by (nonlinear_arith)
        requires i + 1 <= rows, 0 <= cols;
}

/// Row-major positions of different cells differ; earlier rows come first.
pub proof fn lemma_position_order(i1: int, j1: int, i2: int, j2: int, cols: int)
    requires
        0 <= i1 < i2,
        0 <= j1 < cols,
        0 <= j2,
    ensures
        i1 * cols + j1 < i2 * cols + j2,
{
    assert((i1 + 1) * cols <= i2 * cols) by (nonlinear_arith)
        requires i1 + 1 <= i2, 0 <= cols;
    assert((i1 + 1) * cols == i1 * cols + cols) by (nonlinear_arith);
}

/// The matrix that `transpose` builds: `cols` rows of `rows` entries, whose
/// position `j * rows + i` holds the entry at position `j * cols + i` of `m`.
pub open spec fn transposed<T>(m: MatrixModel<T>) -> MatrixModel<T> {
    MatrixModel {
        rows: m.cols,
        cols: m.rows,
        entries: Seq::new(
            m.cols * m.rows,
            |d: int| m.entries[(d / (m.rows as int)) * m.cols + d % (m.rows as int)],
        ),
    }
}

/// `transpose` reads only positions inside the matrix.
pub open spec fn transpose_in_bounds<T>(m: MatrixModel<T>) -> bool {
    m.rows == 0 || m.cols <= m.rows
}

/// Reading position `j * cols + i` with `i < rows`, `j < cols` stays inside
/// the matrix when it has no more columns than rows.
pub proof fn lemma_transpose_source(i: int, j: int, rows: int, cols: int)
    requires
        0 <= i < rows,
        0 <= j < cols,
        cols <= rows,
    ensures
        0 <= j * cols + i < rows * cols,
{
    assert(0 <= j * cols) by (nonlinear_arith)
        requires 0 <= j, 0 <= cols;
    assert(j * cols <= j * rows) by (nonlinear_arith)
        requires 0 <= j, cols <= rows;
    assert((j + 1) * rows <= cols * rows) by (nonlinear_arith)
        requires j + 1 <= cols, 0 <= rows;
    assert((j + 1) * rows == j * rows + rows) by (nonlinear_arith);
    assert(cols * rows == rows * cols) by (nonlinear_arith);
}

/// `steps` runs from `zero` through `f(step, xs[k], ys[k])` for each `k` in
/// turn: an accumulation such as a sum of products, one term at a time.
pub open spec fn accumulates<T, F: Fn(T, T, T) -> T>(
    f: F,
    zero: T,
    xs: Seq<T>,
    ys: Seq<T>,
    steps: Seq<T>,
) -> bool {
    &&& ys.len() == xs.len()
    &&& steps.len() == xs.len() + 1
    &&& steps[0] == zero
    &&& forall|k: int| 0 <= k < xs.len() ==> #[trigger] call_ensures(f, (steps[k], xs[k], ys[k]), steps[k + 1])
}

/// Accumulating `xs` and `ys` with `f` from `zero` can end in `value`.
pub open spec fn folds_to<T, F: Fn(T, T, T) -> T>(f: F, zero: T, xs: Seq<T>, ys: Seq<T>, value: T) -> bool {
    exists|steps: Seq<T>| #[trigger] accumulates(f, zero, xs, ys, steps) && steps.last() == value
}

/// `r` is the product of `a` and `b`, each entry accumulated from a row of
/// `a` and a column of `b` with the step `f`, starting from `zero`.
pub open spec fn is_product<T, F: Fn(T, T, T) -> T>(
    f: F,
    zero: T,
    a: MatrixModel<T>,
    b: MatrixModel<T>,
    r: MatrixModel<T>,
) -> bool {
    &&& r.rows == a.rows
    &&& r.cols == b.cols
    &&& r.well_formed()
    &&& forall|i: int, j: int| 0 <= i < r.rows && 0 <= j < r.cols ==>
        folds_to(f, zero, a.row(i), b.column(j), #[trigger] r.entry(i, j))
}

/// The error for a product whose inner dimensions differ.
pub open spec fn product_mismatch<T>(a: MatrixModel<T>, b: MatrixModel<T>) -> MatrixError {
    MatrixError::ProductMismatch {
        left_rows: a.rows as usize,
        left_cols: a.cols as usize,
        right_rows: b.rows as usize,
        right_cols: b.cols as usize,
    }
}

/// The operands that `dot` pairs with row entries for column `c`: positions
/// `c * b.cols + k` of the matrix that `transpose` makes of `b`, for `k < n`.
pub open spec fn dot_operands<T>(b: MatrixModel<T>, c: int, n: nat) -> Seq<T> {
    Seq::new(n, |k: int| transposed(b).entries[c * b.cols + k])
}

/// `r` is what `dot` makes of `a` and `b`: each entry accumulated from a row
/// of `a` and the operands `dot_operands(b, c, a.cols)`.
pub open spec fn is_dot<T, F: Fn(T, T, T) -> T>(
    f: F,
    zero: T,
    a: MatrixModel<T>,
    b: MatrixModel<T>,
    r: MatrixModel<T>,
) -> bool {
    &&& r.rows == a.rows
    &&& r.cols == b.cols
    &&& r.well_formed()
    &&& forall|i: int, c: int| 0 <= i < r.rows && 0 <= c < r.cols ==>
        folds_to(f, zero, a.row(i), dot_operands(b, c, a.cols), #[trigger] r.entry(i, c))
}

/// The reads of `dot` for column `c` stay inside the transposed matrix.
pub proof fn lemma_dot_read(c: int, cols: int, rows: int)
    requires
        0 <= c < cols,
        cols <= rows,
    ensures
        c * cols + rows <= rows * cols,
{
    assert(c * cols <= c * rows) by (nonlinear_arith)
        requires 0 <= c, cols <= rows;
    assert((c + 1) * rows <= cols * rows) by (nonlinear_arith)
        requires c + 1 <= cols, 0 <= rows;
    assert((c + 1) * rows == c * rows + rows) by (nonlinear_arith);
    assert(cols * rows == rows * cols) by (nonlinear_arith);
}

/// Position `q` of an `n` by `n` table lies in row `q / n`, column `q % n`.
pub proof fn lemma_split_position(q: int, n: int)
    requires
        0 <= n,
        0 <= q < n * n,
    ensures
        n > 0,
        0 <= q / n < n,
        0 <= q % n < n,
        q == (q / n) * n + q % n,
{
    assert(n > 0) by (nonlinear_arith)
        requires 0 <= q < n * n, 0 <= n;
    vstd::arithmetic::div_mod::lemma_fundamental_div_mod(q, n);
    vstd::arithmetic::div_mod::lemma_mod_pos_bound(q, n);
    assert(q == (q / n) * n + q % n) by (nonlinear_arith)
        requires q == n * (q / n) + q % n;
    assert(q / n < n) by (nonlinear_arith)
        requires q == (q / n) * n + q % n, 0 <= q % n, q < n * n, n > 0;
    assert(0 <= q / n) by (nonlinear_arith)
        requires q == (q / n) * n + q % n, q % n < n, 0 <= q, n > 0;
}

/// Row `i`, column `j` of an `n` by `n` table is position `i * n + j`.
pub proof fn lemma_join_position(i: int, j: int, n: int)
    requires
        0 <= i < n,
        0 <= j < n,
    ensures
        0 <= i * n + j < n * n,
        (i * n + j) / n == i,
        (i * n + j) % n == j,
{
    lemma_position_in_table(i, j, n, n);
    vstd::arithmetic::div_mod::lemma_fundamental_div_mod_converse(i * n + j, n, i, j);
}

/// A matrix with `rows * cols` entries stored row by row.
pub struct Matrix<T> {
    rows: usize,
    cols: usize,
    data: Vec<T>,
}

impl<T> View for Matrix<T> {
    type V = MatrixModel<T>;

    closed spec fn view(&self) -> MatrixModel<T> {
        MatrixModel { rows: self.rows as nat, cols: self.cols as nat, entries: self.data@ }
    }
}

/// The entries of a table of rows, row by row.
pub open spec fn table_view<T>(values: Seq<Vec<T>>) -> Seq<Seq<T>> {
    values.map_values(|row: Vec<T>| row@)
}

/// The model of a table of `rows` by `cols` entries.
pub open spec fn table<T>(rows: usize, cols: usize, entries: Seq<T>) -> MatrixModel<T> {
    MatrixModel { rows: rows as nat, cols: cols as nat, entries }
}

/// The outcome of reading the entry in column `x` of row `y`.
pub open spec fn get_spec<T>(m: MatrixModel<T>, x: int, y: int) -> Result<T, MatrixError> {
    if 0 <= y < m.rows && 0 <= x < m.cols {
        Ok(m.entry(y, x))
    } else {
        Err(MatrixError::IndexOutOfBounds)
    }
}

/// The first `k` rows of `values` all have `cols` entries.
pub open spec fn rows_fit<T>(values: Seq<Seq<T>>, cols: nat, k: int) -> bool {
    forall|i: int| 0 <= i < k ==> #[trigger] values[i].len() == cols
}

/// `new` has the shape of `old`, its first `k` rows taken from `values` and the
/// rest kept from `old`.
pub open spec fn rows_overwritten<T>(old: MatrixModel<T>, new: MatrixModel<T>, values: Seq<Seq<T>>, k: int) -> bool {
    &&& new.rows == old.rows
    &&& new.cols == old.cols
    &&& new.entries.len() == old.entries.len()
    &&& forall|i: int, j: int| 0 <= i < old.rows && 0 <= j < old.cols ==>
            #[trigger] new.entry(i, j) == if i < k { values[i][j] } else { old.entry(i, j) }
}

/// What `set` does: refuse a wrong number of rows and leave the matrix as it
/// was; or write the rows in order until the first one of the wrong length,
/// refuse that one and keep the rows written before it; or write them all.
pub open spec fn set_outcome<T>(
    old: MatrixModel<T>,
    values: Seq<Seq<T>>,
    new: MatrixModel<T>,
    outcome: Result<(), MatrixError>,
) -> bool {
    match outcome {
        Ok(()) => values.len() == old.rows && rows_fit(values, old.cols, old.rows as int)
            && rows_overwritten(old, new, values, old.rows as int),
        Err(MatrixError::RowCountMismatch { expected, got }) => values.len() != old.rows
            && expected == old.rows && got == values.len() && new == old,
        Err(MatrixError::ColumnCountMismatch { expected, got }) => values.len() == old.rows
            && exists|k: int| 0 <= k < old.rows && rows_fit(values, old.cols, k)
                && #[trigger] values[k].len() != old.cols && got == values[k].len()
                && expected == old.cols && rows_overwritten(old, new, values, k),
        _ => false,
    }
}

impl<T> Matrix<T> {
    #[verifier::type_invariant]
    spec fn shape_invariant(self) -> bool {
        &&& self.data@.len() == self.rows * self.cols
        &&& self.rows * self.cols <= usize::MAX
    }

    /// A `rows` by `cols` matrix with the given entries, row by row; `None`
    /// when their number is not `rows * cols`.
    pub fn from_entries(rows: usize, cols: usize, data: Vec<T>) -> (m: Option<Matrix<T>>)
        ensures
            m is Some <==> data@.len() == rows * cols,
            m matches Some(m) ==> m@ == (MatrixModel { rows: rows as nat, cols: cols as nat, entries: data@ }),
    {
        match rows.checked_mul(cols) {
            Some(n) => if data.len() == n { Some(Matrix { rows, cols, data }) } else { None },
            None => {
                let len = data.len();
                assert(len == data@.len());
                None
            },
        }
    }

    /// The number of rows.
    pub fn rows(&self) -> (r: usize)
        ensures
            r == self@.rows,
    {
        self.rows
    }

    /// The number of columns.
    pub fn cols(&self) -> (c: usize)
        ensures
            c == self@.cols,
    {
        self.cols
    }

    /// The entries, row by row.
    pub fn entries(&self) -> (e: &Vec<T>)
        ensures
            e@ == self@.entries,
            self@.well_formed(),
    {
        proof { use_type_invariant(self); }
        &self.data
    }

    /// The shape as `(rows, cols)`.
    pub fn get_shape(&self) -> (shape: (usize, usize))
        ensures
            shape.0 == self@.rows,
            shape.1 == self@.cols,
    {
        (self.rows, self.cols)
    }
}

impl<T: Copy> Matrix<T> {
    /// A `rows` by `cols` matrix whose every entry is `fill`.
    pub fn new(rows: usize, cols: usize, fill: T) -> (m: Matrix<T>)
        requires
            rows * cols <= usize::MAX,
        ensures
            m@.rows == rows,
            m@.cols == cols,
            m@.entries == Seq::new((rows * cols) as nat, |p: int| fill),
            m@.well_formed(),
    {
        let n = rows * cols;
        let mut data: Vec<T> = Vec::new();
        while data.len() < n
            invariant
                data.len() <= n,
                forall|p: int| 0 <= p < data.len() ==> data@[p] == fill,
            decreases n - data.len(),
        {
            data.push(fill);
        }
        assert(data@ =~= Seq::new((rows * cols) as nat, |p: int| fill));
        Matrix { rows, cols, data }
    }

    /// Fills the matrix from a table of rows, row by row. A table with the
    /// wrong number of rows is refused and changes nothing; a row of the wrong
    /// length is refused, after the rows before it have been written.
    pub fn set(&mut self, values: Vec<Vec<T>>) -> (outcome: Result<(), MatrixError>)
        ensures
            set_outcome(old(self)@, table_view(values@), final(self)@, outcome),
    {
        proof { use_type_invariant(&*self); }
        let r = values.len();
        if r != self.rows {
            return Err(MatrixError::RowCountMismatch { expected: self.rows, got: r });
        }
        let ghost old_m = self@;
        let ghost vals = table_view(values@);
        let empty: Vec<T> = Vec::new();
        assert(empty@.len() == 0 * 0) by (nonlinear_arith)
            requires empty@.len() == 0;
        let mut taken = Matrix { rows: 0, cols: 0, data: empty };
        std::mem::swap(self, &mut taken);
        let Matrix { rows, cols, mut data } = taken;
        let mut i: usize = 0;
        while i < r
            invariant
                i <= r,
                r == rows,
                values@.len() == r,
                old_m == old(self)@,
                rows as nat == old_m.rows,
                cols as nat == old_m.cols,
                data@.len() == rows * cols,
                rows * cols <= usize::MAX,
                old_m.entries.len() == rows * cols,
                vals == table_view(values@),
                rows_fit(vals, old_m.cols, i as int),
                rows_overwritten(old_m, table(rows, cols, data@), vals, i as int),
            decreases r - i,
        {
            let row: &Vec<T> = &values[i];
            if row.len() != cols {
                assert(vals[i as int].len() != old_m.cols);
                *self = Matrix { rows, cols, data };
                assert(0 <= i < old_m.rows && rows_fit(vals, old_m.cols, i as int)
                    && vals[i as int].len() != old_m.cols && row@.len() == vals[i as int].len()
                    && rows_overwritten(old_m, self@, vals, i as int));
                let e = MatrixError::ColumnCountMismatch { expected: cols, got: row.len() };
                assert(set_outcome(old_m, vals, self@, Err(e)));
                return Err(e);
            }
            let mut j: usize = 0;
            while j < cols
                invariant
                    i < rows,
                    j <= cols,
                    rows as nat == old_m.rows,
                    cols as nat == old_m.cols,
                    data@.len() == rows * cols,
                    rows * cols <= usize::MAX,
                    row@ == vals[i as int],
                    row@.len() == cols,
                    forall|i2: int, j2: int| 0 <= i2 < rows && 0 <= j2 < cols ==>
                        #[trigger] table(rows, cols, data@).entry(i2, j2) == if i2 < i || (i2 == i && j2 < j) {
                            vals[i2][j2]
                        } else {
                            old_m.entry(i2, j2)
                        },
                decreases cols - j,
            {
                proof { lemma_position_in_table(i as int, j as int, rows as int, cols as int); }
                let ghost before = data@;
                let p = i * cols + j;
                data.set(p, row[j]);
                proof {
                    assert forall|i2: int, j2: int| 0 <= i2 < rows && 0 <= j2 < cols implies
                        #[trigger] table(rows, cols, data@).entry(i2, j2) == if i2 < i || (i2 == i && j2 < j + 1) {
                            vals[i2][j2]
                        } else {
                            old_m.entry(i2, j2)
                        } by {
                        lemma_position_in_table(i2, j2, rows as int, cols as int);
                        let e_before = table(rows, cols, before).entry(i2, j2);
                        if i2 < i {
                            lemma_position_order(i2, j2, i as int, j as int, cols as int);
                        } else if i2 > i {
                            lemma_position_order(i as int, j as int, i2, j2, cols as int);
                        }
                    }
                }
                j = j + 1;
            }
            assert(rows_overwritten(old_m, table(rows, cols, data@), vals, i + 1));
            i = i + 1;
        }
        *self = Matrix { rows, cols, data };
        Ok(())
    }

    /// The matrix with `cols` rows and `rows` columns whose position
    /// `j * rows + i` holds the entry at position `j * cols + i` of this one.
    /// On a square matrix this copies every entry to where it was.
    pub fn transpose(&self) -> (t: Matrix<T>)
        requires
            transpose_in_bounds(self@),
        ensures
            t@ == transposed(self@),
            t@.well_formed(),
    {
        proof { use_type_invariant(self); }
        let rows = self.rows;
        let cols = self.cols;
        let mut data: Vec<T> = Vec::new();
        let mut j: usize = 0;
        proof {
            assert(cols * rows == rows * cols) by (nonlinear_arith);
            assert(0 * rows == 0) by (nonlinear_arith);
        }
        while j < cols
            invariant
                j <= cols,
                rows == self.rows,
                cols == self.cols,
                self.data@.len() == rows * cols,
                rows * cols <= usize::MAX,
                cols * rows == rows * cols,
                rows == 0 || cols <= rows,
                data@.len() == j * rows,
                forall|d: int| 0 <= d < data@.len() ==>
                    #[trigger] data@[d] == self.data@[(d / (rows as int)) * cols + d % (rows as int)],
            decreases cols - j,
        {
            let mut i: usize = 0;
            while i < rows
                invariant
                    j < cols,
                    i <= rows,
                    rows == self.rows,
                    cols == self.cols,
                    self.data@.len() == rows * cols,
                    rows * cols <= usize::MAX,
                    cols * rows == rows * cols,
                    rows == 0 || cols <= rows,
                    data@.len() == j * rows + i,
                    forall|d: int| 0 <= d < data@.len() ==>
                        #[trigger] data@[d] == self.data@[(d / (rows as int)) * cols + d % (rows as int)],
                decreases rows - i,
            {
                proof {
                    lemma_transpose_source(i as int, j as int, rows as int, cols as int);
                    vstd::arithmetic::div_mod::lemma_fundamental_div_mod_converse(
                        (j * rows + i) as int, rows as int, j as int, i as int);
                    lemma_position_in_table(j as int, i as int, cols as int, rows as int);
                }
                data.push(self.data[j * cols + i]);
                i = i + 1;
            }
            proof {
                assert(j * rows + rows == (j + 1) * rows) by (nonlinear_arith);
            }
            j = j + 1;
        }
        let t = Matrix { rows: cols, cols: rows, data };
        assert(t@.entries =~= transposed(self@).entries);
        t
    }

    /// The matrix of the same shape whose every entry is `f` applied to the
    /// entry at the same position.
    pub fn map<U, F: Fn(T) -> U>(&self, f: F) -> (r: Matrix<U>)
        requires
            forall|x: T| call_requires(f, (x,)),
        ensures
            r@.rows == self@.rows,
            r@.cols == self@.cols,
            r@.entries.len() == self@.entries.len(),
            r@.well_formed(),
            forall|p: int| 0 <= p < self@.entries.len() ==>
                call_ensures(f, (self@.entries[p],), #[trigger] r@.entries[p]),
    {
        proof { use_type_invariant(self); }
        let n = self.data.len();
        let mut data: Vec<U> = Vec::new();
        while data.len() < n
            invariant
                n == self.data@.len(),
                data@.len() <= n,
                forall|x: T| call_requires(f, (x,)),
                forall|p: int| 0 <= p < data@.len() ==>
                    call_ensures(f, (self.data@[p],), #[trigger] data@[p]),
            decreases n - data@.len(),
        {
            let x = self.data[data.len()];
            let y = f(x);
            data.push(y);
        }
        Matrix { rows: self.rows, cols: self.cols, data }
    }

    /// The matrix of the common shape whose every entry is `f` applied to the
    /// entries at the same position of the two matrices; refused when their
    /// shapes differ.
    pub fn zip_with<F: Fn(T, T) -> T>(&self, other: &Matrix<T>, f: F) -> (r: Result<Matrix<T>, MatrixError>)
        requires
            forall|x: T, y: T| call_requires(f, (x, y)),
        ensures
            r is Err <==> (self@.rows != other@.rows || self@.cols != other@.cols),
            r matches Err(e) ==> e == MatrixError::ShapeMismatch,
            r matches Ok(m) ==> {
                &&& m@.rows == self@.rows
                &&& m@.cols == self@.cols
                &&& m@.entries.len() == self@.entries.len()
                &&& m@.well_formed()
                &&& forall|p: int| 0 <= p < self@.entries.len() ==>
                    call_ensures(f, (self@.entries[p], other@.entries[p]), #[trigger] m@.entries[p])
            },
    {
        proof {
            use_type_invariant(self);
            use_type_invariant(other);
        }
        if self.rows != other.rows || self.cols != other.cols {
            return Err(MatrixError::ShapeMismatch);
        }
        let n = self.data.len();
        let mut data: Vec<T> = Vec::new();
        while data.len() < n
            invariant
                n == self.data@.len(),
                n == other.data@.len(),
                data@.len() <= n,
                forall|x: T, y: T| call_requires(f, (x, y)),
                forall|p: int| 0 <= p < data@.len() ==>
                    call_ensures(f, (self.data@[p], other.data@[p]), #[trigger] data@[p]),
            decreases n - data@.len(),
        {
            let k = data.len();
            let z = f(self.data[k], other.data[k]);
            data.push(z);
        }
        Ok(Matrix { rows: self.rows, cols: self.cols, data })
    }

    /// Whether the two matrices have the same shape and `same` holds of the
    /// entries at every position.
    pub fn equals_by<F: Fn(T, T) -> bool>(&self, other: &Matrix<T>, same: F) -> (eq: bool)
        requires
            forall|x: T, y: T| call_requires(same, (x, y)),
        ensures
            eq ==> self@.rows == other@.rows && self@.cols == other@.cols
                && forall|p: int| 0 <= p < self@.entries.len() ==>
                    call_ensures(same, (#[trigger] self@.entries[p], other@.entries[p]), true),
            !eq ==> self@.rows != other@.rows || self@.cols != other@.cols
                || exists|p: int| 0 <= p < self@.entries.len()
                    && call_ensures(same, (#[trigger] self@.entries[p], other@.entries[p]), false),
    {
        proof {
            use_type_invariant(self);
            use_type_invariant(other);
        }
        if self.rows != other.rows || self.cols != other.cols {
            return false;
        }
        let n = self.data.len();
        let mut k: usize = 0;
        while k < n
            invariant
                n == self.data@.len(),
                n == other.data@.len(),
                k <= n,
                forall|x: T, y: T| call_requires(same, (x, y)),
                forall|p: int| 0 <= p < k ==>
                    call_ensures(same, (#[trigger] self.data@[p], other.data@[p]), true),
            decreases n - k,
        {
            if !same(self.data[k], other.data[k]) {
                assert(call_ensures(same, (self@.entries[k as int], other@.entries[k as int]), false));
                return false;
            }
            k = k + 1;
        }
        true
    }

    /// The entry in column `x` of row `y`.
    pub fn get(&self, x: usize, y: usize) -> (r: Result<T, MatrixError>)
        ensures
            r == get_spec(self@, x as int, y as int),
    {
        proof { use_type_invariant(self); }
        if self.rows <= y || self.cols <= x {
            return Err(MatrixError::IndexOutOfBounds);
        }
        proof { lemma_position_in_table(y as int, x as int, self.rows as int, self.cols as int); }
        Ok(self.data[y * self.cols + x])
    }
}

/// The product of `a` and `other`: each entry starts from `zero` and takes
/// `mul_add(entry, a[i][k], other[k][j])` for `k` in order. Refused when the
/// columns of `a` do not match the rows of `other`.
pub fn matmul<T: Copy, F: Fn(T, T, T) -> T>(a: &Matrix<T>, other: &Matrix<T>, zero: T, mul_add: &F) -> (r: Result<Matrix<T>, MatrixError>)
    requires
        a@.cols == other@.rows ==> a@.rows * other@.cols <= usize::MAX,
        forall|acc: T, x: T, y: T| call_requires(mul_add, (acc, x, y)),
    ensures
        r is Err <==> a@.cols != other@.rows,
        r matches Err(e) ==> e == product_mismatch(a@, other@),
        r matches Ok(m) ==> is_product(mul_add, zero, a@, other@, m@),
{
    let ghost am = a@;
    let ghost bm = other@;
    let (arows, acols) = a.get_shape();
    let (brows, bcols) = other.get_shape();
    if acols != brows {
        return Err(MatrixError::ProductMismatch {
            left_rows: arows,
            left_cols: acols,
            right_rows: brows,
            right_cols: bcols,
        });
    }
    let ad = a.entries();
    let bd = other.entries();
    let alen = ad.len();
    let blen = bd.len();
    let mut data: Vec<T> = Vec::new();
    let ghost mut chains: Seq<Seq<T>> = Seq::empty();
    let mut i: usize = 0;
    while i < arows
        invariant
            i <= arows,
            am == a@,
            bm == other@,
            arows == am.rows,
            acols == am.cols,
            brows == bm.rows,
            bcols == bm.cols,
            acols == brows,
            ad@ == am.entries,
            bd@ == bm.entries,
            alen == ad@.len(),
            blen == bd@.len(),
            am.well_formed(),
            bm.well_formed(),
            arows * bcols <= usize::MAX,
            forall|acc: T, x: T, y: T| call_requires(mul_add, (acc, x, y)),
            data@.len() == i * bcols,
            chains.len() == data@.len(),
            forall|i2: int, j2: int| 0 <= i2 < i && 0 <= j2 < bcols ==>
                accumulates(mul_add, zero, am.row(i2), bm.column(j2), #[trigger] chains[i2 * bcols + j2])
                && chains[i2 * bcols + j2].last() == data@[i2 * bcols + j2],
        decreases arows - i,
    {
        let mut j: usize = 0;
        while j < bcols
            invariant
                i < arows,
                j <= bcols,
                am == a@,
                bm == other@,
                arows == am.rows,
                acols == am.cols,
                brows == bm.rows,
                bcols == bm.cols,
                acols == brows,
                ad@ == am.entries,
                bd@ == bm.entries,
                alen == ad@.len(),
                blen == bd@.len(),
                am.well_formed(),
                bm.well_formed(),
                arows * bcols <= usize::MAX,
                forall|acc: T, x: T, y: T| call_requires(mul_add, (acc, x, y)),
                data@.len() == i * bcols + j,
                chains.len() == data@.len(),
                forall|i2: int, j2: int| (0 <= i2 < i && 0 <= j2 < bcols) || (i2 == i && 0 <= j2 < j) ==>
                    accumulates(mul_add, zero, am.row(i2), bm.column(j2), #[trigger] chains[i2 * bcols + j2])
                    && chains[i2 * bcols + j2].last() == data@[i2 * bcols + j2],
            decreases bcols - j,
        {
            let mut acc = zero;
            let ghost mut steps: Seq<T> = seq![zero];
            let mut k: usize = 0;
            while k < acols
                invariant
                    i < arows,
                    j < bcols,
                    k <= acols,
                    acols == am.cols,
                    acols == brows,
                    arows == am.rows,
                    brows == bm.rows,
                    bcols == bm.cols,
                    ad@ == am.entries,
                    bd@ == bm.entries,
                    alen == ad@.len(),
                    blen == bd@.len(),
                    am.well_formed(),
                    bm.well_formed(),
                    forall|acc: T, x: T, y: T| call_requires(mul_add, (acc, x, y)),
                    steps.len() == k + 1,
                    steps[0] == zero,
                    steps.last() == acc,
                    forall|k2: int| 0 <= k2 < k ==> #[trigger] call_ensures(
                        mul_add,
                        (steps[k2], am.entry(i as int, k2), bm.entry(k2, j as int)),
                        steps[k2 + 1],
                    ),
                decreases acols - k,
            {
                proof {
                    lemma_position_in_table(i as int, k as int, arows as int, acols as int);
                    lemma_position_in_table(k as int, j as int, brows as int, bcols as int);
                }
                let x = ad[i * acols + k];
                let y = bd[k * bcols + j];
                acc = mul_add(acc, x, y);
                proof {
                    steps = steps.push(acc);
                }
                k = k + 1;
            }
            proof {
                assert(accumulates(mul_add, zero, am.row(i as int), bm.column(j as int), steps)) by {
                    assert forall|k2: int| 0 <= k2 < acols implies #[trigger] call_ensures(
                        mul_add,
                        (steps[k2], am.row(i as int)[k2], bm.column(j as int)[k2]),
                        steps[k2 + 1],
                    ) by {
                        assert(am.row(i as int)[k2] == am.entry(i as int, k2));
                        assert(bm.column(j as int)[k2] == bm.entry(k2, j as int));
                    }
                }
                lemma_position_in_table(i as int, j as int, arows as int, bcols as int);
            }
            let ghost chains_before = chains;
            let ghost data_before = data@;
            proof {
                chains = chains.push(steps);
            }
            data.push(acc);
            proof {
                assert forall|i2: int, j2: int| (0 <= i2 < i && 0 <= j2 < bcols) || (i2 == i && 0 <= j2 <= j) implies
                    accumulates(mul_add, zero, am.row(i2), bm.column(j2), #[trigger] chains[i2 * bcols + j2])
                    && chains[i2 * bcols + j2].last() == data@[i2 * bcols + j2] by {
                    if i2 < i {
                        lemma_position_order(i2, j2, i as int, j as int, bcols as int);
                        assert(chains[i2 * bcols + j2] == chains_before[i2 * bcols + j2]);
                    } else if j2 < j {
                        assert(chains[i2 * bcols + j2] == chains_before[i2 * bcols + j2]);
                    }
                }
            }
            j = j + 1;
        }
        proof {
            assert((i + 1) * bcols == i * bcols + bcols) by (nonlinear_arith);
        }
        i = i + 1;
    }
    let m = Matrix { rows: arows, cols: bcols, data };
    proof {
        assert forall|i2: int, j2: int| 0 <= i2 < m@.rows && 0 <= j2 < m@.cols implies
            folds_to(mul_add, zero, am.row(i2), bm.column(j2), #[trigger] m@.entry(i2, j2)) by {
            assert(accumulates(mul_add, zero, am.row(i2), bm.column(j2), chains[i2 * bcols + j2]));
        }
    }
    Ok(m)
}

/// The shape of the product of `a` and `b`; refused when the columns of `a`
/// do not match the rows of `b`.
pub fn product_shape<T: Copy>(a: &Matrix<T>, b: &Matrix<T>) -> (shape: Result<(usize, usize), MatrixError>)
    ensures
        shape is Err <==> a@.cols != b@.rows,
        shape matches Err(e) ==> e == product_mismatch(a@, b@),
        shape matches Ok(s) ==> s.0 == a@.rows && s.1 == b@.cols,
{
    let (arows, acols) = a.get_shape();
    let (brows, bcols) = b.get_shape();
    if acols != brows {
        Err(MatrixError::ProductMismatch {
            left_rows: arows,
            left_cols: acols,
            right_rows: brows,
            right_cols: bcols,
        })
    } else {
        Ok((arows, bcols))
    }
}

impl<T: Copy> Matrix<T> {
    /// `matmul(self, self)`.
    pub fn square<F: Fn(T, T, T) -> T>(&self, zero: T, mul_add: &F) -> (r: Result<Matrix<T>, MatrixError>)
        requires
            forall|acc: T, x: T, y: T| call_requires(mul_add, (acc, x, y)),
        ensures
            r is Err <==> self@.rows != self@.cols,
            r matches Err(e) ==> e == product_mismatch(self@, self@),
            r matches Ok(m) ==> is_product(mul_add, zero, self@, self@, m@),
    {
        proof { use_type_invariant(self); }
        matmul(self, self, zero, mul_add)
    }

    /// `matmul(matmul(self, self), self)`.
    pub fn cube<F: Fn(T, T, T) -> T>(&self, zero: T, mul_add: &F) -> (r: Result<Matrix<T>, MatrixError>)
        requires
            forall|acc: T, x: T, y: T| call_requires(mul_add, (acc, x, y)),
        ensures
            r is Err <==> self@.rows != self@.cols,
            r matches Err(e) ==> e == product_mismatch(self@, self@),
            r matches Ok(m) ==> exists|s: MatrixModel<T>|
                is_product(mul_add, zero, self@, self@, s) && #[trigger] is_product(mul_add, zero, s, self@, m@),
    {
        proof { use_type_invariant(self); }
        let b = matmul(self, self, zero, mul_add)?;
        let r = matmul(&b, self, zero, mul_add);
        proof {
            if r is Ok {
                let s = b@;
                assert(is_product(mul_add, zero, self@, self@, s));
            }
        }
        r
    }

    /// One entry of `dot`: for `index = r * other_cols + c`, the accumulation
    /// of row `r` of this matrix with the entries at positions
    /// `c * other_cols + k` of `other_t`.
    pub fn dot_entry<F: Fn(T, T, T) -> T>(
        &self,
        other_t: &Matrix<T>,
        other_cols: usize,
        index: usize,
        zero: T,
        mul_add: &F,
    ) -> (v: T)
        requires
            other_cols > 0,
            (index as int) / (other_cols as int) < self@.rows,
            self@.cols > 0 ==> ((index as int) % (other_cols as int)) * other_cols + self@.cols <= other_t@.entries.len(),
            forall|acc: T, x: T, y: T| call_requires(mul_add, (acc, x, y)),
        ensures
            folds_to(
                mul_add,
                zero,
                self@.row((index as int) / (other_cols as int)),
                Seq::new(self@.cols, |k: int| other_t@.entries[((index as int) % (other_cols as int)) * other_cols + k]),
                v,
            ),
    {
        proof {
            use_type_invariant(self);
            use_type_invariant(other_t);
        }
        let r = index / other_cols;
        let c = index % other_cols;
        let n = self.cols;
        let rows = self.rows;
        let tl = other_t.data.len();
        let ghost xs = self@.row(r as int);
        let ghost ys = Seq::new(self@.cols, |k: int| other_t@.entries[c * other_cols + k]);
        let mut acc = zero;
        let ghost mut steps: Seq<T> = seq![zero];
        let mut k: usize = 0;
        while k < n
            invariant
                k <= n,
                n == self.cols,
                rows == self.rows,
                r < rows,
                self.data@.len() == rows * n,
                rows * n <= usize::MAX,
                n > 0 ==> c * other_cols + n <= other_t.data@.len(),
                tl == other_t.data@.len(),
                xs == self@.row(r as int),
                ys == Seq::new(self@.cols, |k: int| other_t@.entries[c * other_cols + k]),
                forall|acc: T, x: T, y: T| call_requires(mul_add, (acc, x, y)),
                steps.len() == k + 1,
                steps[0] == zero,
                steps.last() == acc,
                forall|k2: int| 0 <= k2 < k ==> #[trigger] call_ensures(mul_add, (steps[k2], xs[k2], ys[k2]), steps[k2 + 1]),
            decreases n - k,
        {
            proof { lemma_position_in_table(r as int, k as int, rows as int, n as int); }
            let x = self.data[r * n + k];
            let y = other_t.data[c * other_cols + k];
            assert(x == xs[k as int]);
            assert(y == ys[k as int]);
            acc = mul_add(acc, x, y);
            proof { steps = steps.push(acc); }
            k = k + 1;
        }
        assert(accumulates(mul_add, zero, xs, ys, steps));
        acc
    }

    /// Each entry `(r, c)` accumulated, from `zero` with `mul_add`, from row
    /// `r` of this matrix and positions `c * other.cols + k` of
    /// `other.transpose()`. Refused when the columns of this matrix do not
    /// match the rows of `other`.
    pub fn dot<F: Fn(T, T, T) -> T>(&self, other: &Matrix<T>, zero: T, mul_add: &F) -> (r: Result<Matrix<T>, MatrixError>)
        requires
            self@.cols == other@.rows ==> self@.rows * other@.cols <= usize::MAX && transpose_in_bounds(other@),
            forall|acc: T, x: T, y: T| call_requires(mul_add, (acc, x, y)),
        ensures
            r is Err <==> self@.cols != other@.rows,
            r matches Err(e) ==> e == product_mismatch(self@, other@),
            r matches Ok(m) ==> is_dot(mul_add, zero, self@, other@, m@),
    {
        proof {
            use_type_invariant(self);
            use_type_invariant(other);
        }
        let (rows, ocols) = product_shape(self, other)?;
        let other_t = other.transpose();
        let n = rows * ocols;
        let mut data: Vec<T> = Vec::new();
        while data.len() < n
            invariant
                n == rows * ocols,
                rows == self@.rows,
                ocols == other@.cols,
                self@.cols == other@.rows,
                transpose_in_bounds(other@),
                other_t@ == transposed(other@),
                data@.len() <= n,
                forall|acc: T, x: T, y: T| call_requires(mul_add, (acc, x, y)),
                forall|i: int, c: int| 0 <= i < rows && 0 <= c < ocols && i * ocols + c < data@.len() ==>
                    folds_to(mul_add, zero, self@.row(i), dot_operands(other@, c, self@.cols), #[trigger] data@[i * ocols + c]),
            decreases n - data@.len(),
        {
            let index = data.len();
            let ghost i = index as int / (ocols as int);
            let ghost c = index as int % (ocols as int);
            proof {
                assert(ocols > 0) by (nonlinear_arith)
                    requires index < rows * ocols, 0 <= index;
                vstd::arithmetic::div_mod::lemma_fundamental_div_mod(index as int, ocols as int);
                vstd::arithmetic::div_mod::lemma_mod_pos_bound(index as int, ocols as int);
                assert(i < rows) by (nonlinear_arith)
                    requires index < rows * ocols, index == ocols * i + c, 0 <= c, ocols > 0;
                assert(index == i * ocols + c) by (nonlinear_arith)
                    requires index == ocols * i + c;
                if self@.cols > 0 {
                    lemma_dot_read(c, ocols as int, other@.rows as int);
                    assert(ocols * other@.rows == other@.rows * ocols) by (nonlinear_arith);
                }
            }
            let v = self.dot_entry(&other_t, ocols, index, zero, mul_add);
            proof {
                assert(Seq::new(self@.cols, |k: int| other_t@.entries[c * ocols + k])
                    =~= dot_operands(other@, c, self@.cols));
            }
            let ghost data_before = data@;
            data.push(v);
            proof {
                assert forall|i2: int, c2: int| 0 <= i2 < rows && 0 <= c2 < ocols && i2 * ocols + c2 < data@.len() implies
                    folds_to(mul_add, zero, self@.row(i2), dot_operands(other@, c2, self@.cols), #[trigger] data@[i2 * ocols + c2]) by {
                    if i2 * ocols + c2 == index {
                        vstd::arithmetic::div_mod::lemma_fundamental_div_mod_converse(index as int, ocols as int, i2, c2);
                    } else {
                        assert(data@[i2 * ocols + c2] == data_before[i2 * ocols + c2]);
                    }
                }
            }
        }
        let m = Matrix { rows, cols: ocols, data };
        proof {
            assert forall|i: int, c: int| 0 <= i < m@.rows && 0 <= c < m@.cols implies
                folds_to(mul_add, zero, self@.row(i), dot_operands(other@, c, self@.cols), #[trigger] m@.entry(i, c)) by {
                lemma_position_in_table(i, c, rows as int, ocols as int);
            }
        }
        Ok(m)
    }

    /// Succeeds with the size of a square matrix; refused otherwise.
    pub fn require_square(&self) -> (n: Result<usize, MatrixError>)
        ensures
            n is Err <==> self@.rows != self@.cols,
            n matches Err(e) ==> e == MatrixError::NotSquare,
            n matches Ok(n) ==> n == self@.rows,
    {
        if self.rows != self.cols { Err(MatrixError::NotSquare) } else { Ok(self.rows) }
    }

    /// Succeeds when the matrix has two rows or two columns; refused when it
    /// has neither.
    pub fn require_two_by_two(&self) -> (ok: Result<(), MatrixError>)
        ensures
            ok is Err <==> self@.rows != 2 && self@.cols != 2,
            ok matches Err(e) ==> e == MatrixError::NotTwoByTwo,
    {
        if self.cols != 2 && self.rows != 2 { Err(MatrixError::NotTwoByTwo) } else { Ok(()) }
    }
}

} // verus!
