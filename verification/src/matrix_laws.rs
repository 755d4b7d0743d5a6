//! Laws that relate the matrix operations to one another.

use vstd::prelude::*;
use crate::lu_laws::sum_of_products;
use crate::ops::{deterministic3, fold_steps, lemma_apply3, lemma_fold_steps_take};
use crate::matrix::{accumulates, dot_operands, is_dot, folds_to, get_spec, is_product, set_outcome, transposed, MatrixError, MatrixModel};

verus! {

/// An accumulation with a step that gives one result per argument ends where
/// folding with that step ends.
pub proof fn lemma_accumulation_is_fold<T, F: Fn(T, T, T) -> T>(
    f: F,
    zero: T,
    xs: Seq<T>,
    ys: Seq<T>,
    steps: Seq<T>,
    k: int,
)
    requires
        deterministic3(f),
        accumulates(f, zero, xs, ys, steps),
        0 <= k <= xs.len(),
    ensures
        steps[k] == fold_steps(f, zero, xs.take(k), ys.take(k)),
    decreases k,
{
    if k > 0 {
        lemma_accumulation_is_fold(f, zero, xs, ys, steps, k - 1);
        let j = k - 1;
        assert(call_ensures(f, (steps[j], xs[j], ys[j]), steps[j + 1]));
        lemma_apply3(f, steps[j], xs[j], ys[j], steps[j + 1]);
        lemma_fold_steps_take(f, zero, xs, ys, j);
    }
}

/// A value that an accumulation of `xs` and `ys` can end in is the fold.
pub proof fn lemma_folds_to_is_fold<T, F: Fn(T, T, T) -> T>(f: F, zero: T, xs: Seq<T>, ys: Seq<T>, value: T)
    requires
        deterministic3(f),
        folds_to(f, zero, xs, ys, value),
    ensures
        value == fold_steps(f, zero, xs, ys),
{
    let steps = choose|steps: Seq<T>| #[trigger] accumulates(f, zero, xs, ys, steps) && steps.last() == value;
    lemma_accumulation_is_fold(f, zero, xs, ys, steps, xs.len() as int);
    assert(xs.take(xs.len() as int) =~= xs);
    assert(ys.take(xs.len() as int) =~= ys);
}

/// Law: when the step gives one result per argument (as `acc + x * y`
/// does), each entry of a product is the fold of its row and column: the
/// product is determined by its factors.
pub proof fn law_product_entries_are_folds<T, F: Fn(T, T, T) -> T>(
    f: F,
    zero: T,
    a: MatrixModel<T>,
    b: MatrixModel<T>,
    r: MatrixModel<T>,
    i: int,
    j: int,
)
    requires
        deterministic3(f),
        is_product(f, zero, a, b, r),
        0 <= i < r.rows,
        0 <= j < r.cols,
    ensures
        r.entry(i, j) == fold_steps(f, zero, a.row(i), b.column(j)),
{
    assert(folds_to(f, zero, a.row(i), b.column(j), r.entry(i, j)));
    lemma_folds_to_is_fold(f, zero, a.row(i), b.column(j), r.entry(i, j));
}

/// Law: likewise each entry that `dot` computes is the fold of its row and
/// its operands.
pub proof fn law_dot_entries_are_folds<T, F: Fn(T, T, T) -> T>(
    f: F,
    zero: T,
    a: MatrixModel<T>,
    b: MatrixModel<T>,
    r: MatrixModel<T>,
    i: int,
    c: int,
)
    requires
        deterministic3(f),
        is_dot(f, zero, a, b, r),
        0 <= i < r.rows,
        0 <= c < r.cols,
    ensures
        r.entry(i, c) == fold_steps(f, zero, a.row(i), dot_operands(b, c, a.cols)),
{
    assert(folds_to(f, zero, a.row(i), dot_operands(b, c, a.cols), r.entry(i, c)));
    lemma_folds_to_is_fold(f, zero, a.row(i), dot_operands(b, c, a.cols), r.entry(i, c));
}

/// Law: after a successful `set`, reading column `x` of row `y` gives back
/// the value written there.
pub proof fn law_get_after_set<T>(old: MatrixModel<T>, values: Seq<Seq<T>>, new: MatrixModel<T>, x: int, y: int)
    requires
        old.well_formed(),
        set_outcome(old, values, new, Ok(())),
        0 <= y < old.rows,
        0 <= x < old.cols,
    ensures
        get_spec(new, x, y) == Ok::<T, MatrixError>(values[y][x]),
{
    assert(new.entry(y, x) == values[y][x]);
}

/// Law: a successful `set` determines the matrix: whatever the entries were
/// before, two matrices of one shape given the same table end up equal.
pub proof fn law_set_determines_entries<T>(
    a: MatrixModel<T>,
    b: MatrixModel<T>,
    values: Seq<Seq<T>>,
    a2: MatrixModel<T>,
    b2: MatrixModel<T>,
)
    requires
        a.well_formed(),
        b.well_formed(),
        a.rows == b.rows,
        a.cols == b.cols,
        set_outcome(a, values, a2, Ok(())),
        set_outcome(b, values, b2, Ok(())),
    ensures
        a2 == b2,
{
    assert forall|p: int| 0 <= p < a2.entries.len() implies a2.entries[p] == b2.entries[p] by {
        let cols = a.cols as int;
        assert(cols > 0) by (nonlinear_arith)
            requires 0 <= p < a.rows * a.cols, cols == a.cols;
        let i = p / cols;
        let j = p % cols;
        vstd::arithmetic::div_mod::lemma_fundamental_div_mod(p, cols);
        vstd::arithmetic::div_mod::lemma_mod_pos_bound(p, cols);
        assert(p == i * cols + j) by (nonlinear_arith)
            requires p == cols * i + j;
        assert(0 <= i < a.rows) by (nonlinear_arith)
            requires p == i * cols + j, 0 <= j < cols, 0 <= p < a.rows * cols, cols > 0;
        assert(a2.entry(i, j) == values[i][j]);
        assert(b2.entry(i, j) == values[i][j]);
    }
    assert(a2.entries =~= b2.entries);
}

/// Law: `transpose` moves no entry of a square matrix.
pub proof fn law_transpose_square_unchanged<T>(m: MatrixModel<T>)
    requires
        m.well_formed(),
        m.rows == m.cols,
    ensures
        transposed(m) == m,
{
    let n = m.rows as int;
    assert forall|d: int| 0 <= d < m.entries.len() implies
        #[trigger] transposed(m).entries[d] == m.entries[d] by {
        vstd::arithmetic::div_mod::lemma_fundamental_div_mod(d, n);
        assert((d / n) * n + d % n == d) by (nonlinear_arith)
            requires d == n * (d / n) + d % n;
    }
    assert(transposed(m).entries =~= m.entries);
}

/// Law: `transpose` turns a `rows` by `cols` matrix into a `cols` by `rows` one.
pub proof fn law_transpose_shape<T>(m: MatrixModel<T>)
    requires
        m.well_formed(),
    ensures
        transposed(m).rows == m.cols,
        transposed(m).cols == m.rows,
        transposed(m).well_formed(),
{
    assert(m.cols * m.rows == m.rows * m.cols) by (nonlinear_arith);
}

/// Law: on a square right factor, `dot` pairs row `r` of the left factor
/// with row `c` of the right one, since `transpose` leaves a square matrix
/// as it is.
pub proof fn law_dot_square_pairs_rows<T>(b: MatrixModel<T>, c: int)
    requires
        b.well_formed(),
        b.rows == b.cols,
        0 <= c < b.cols,
    ensures
        dot_operands(b, c, b.rows) == b.row(c),
{
    law_transpose_square_unchanged(b);
    assert(dot_operands(b, c, b.rows) =~= b.row(c));
}

/// `mul_add(acc, x, y)` is exactly `acc + x * y`.
pub open spec fn exact_mul_add<F: Fn(int, int, int) -> int>(mul_add: F) -> bool {
    forall|acc: int, x: int, y: int, r: int| #[trigger] call_ensures(mul_add, (acc, x, y), r) <==> r == acc + x * y
}

/// Folding an exact `mul_add` adds the sum of the products.
pub proof fn lemma_fold_is_sum<F: Fn(int, int, int) -> int>(mul_add: F, start: int, xs: Seq<int>, ys: Seq<int>)
    requires
        exact_mul_add(mul_add),
        xs.len() == ys.len(),
    ensures
        fold_steps(mul_add, start, xs, ys) == start + sum_of_products(xs, ys),
    decreases xs.len(),
{
    if xs.len() > 0 {
        lemma_fold_is_sum(mul_add, start, xs.drop_last(), ys.drop_last());
        let acc = fold_steps(mul_add, start, xs.drop_last(), ys.drop_last());
        assert(call_ensures(mul_add, (acc, xs.last(), ys.last()), acc + xs.last() * ys.last()));
    }
}

/// Law: with exact integer arithmetic, `matmul` is the matrix product: entry
/// `(i, j)` is the sum over `k` of `a[i][k] * b[k][j]`.
pub proof fn law_product_is_sum_of_products<F: Fn(int, int, int) -> int>(
    mul_add: F,
    a: MatrixModel<int>,
    b: MatrixModel<int>,
    r: MatrixModel<int>,
    i: int,
    j: int,
)
    requires
        exact_mul_add(mul_add),
        is_product(mul_add, 0int, a, b, r),
        0 <= i < r.rows,
        0 <= j < r.cols,
        a.cols == b.rows,
    ensures
        r.entries[i * r.cols + j] == sum_of_products(
            Seq::new(a.cols, |k: int| a.entries[i * a.cols + k]),
            Seq::new(a.cols, |k: int| b.entries[k * b.cols + j]),
        ),
{
    law_product_entries_are_folds(mul_add, 0int, a, b, r, i, j);
    lemma_fold_is_sum(mul_add, 0int, a.row(i), b.column(j));
    assert(a.row(i) =~= Seq::new(a.cols, |k: int| a.entries[i * a.cols + k]));
    assert(b.column(j) =~= Seq::new(a.cols, |k: int| b.entries[k * b.cols + j]));
}

/// Law: with exact integer arithmetic and a square right factor, `dot`
/// gives the product with the transposed right factor: entry `(i, c)` is the
/// sum over `k` of `a[i][k] * b[c][k]`.
pub proof fn law_dot_square_is_product_with_transpose<F: Fn(int, int, int) -> int>(
    mul_add: F,
    a: MatrixModel<int>,
    b: MatrixModel<int>,
    r: MatrixModel<int>,
    i: int,
    c: int,
)
    requires
        exact_mul_add(mul_add),
        is_dot(mul_add, 0int, a, b, r),
        b.well_formed(),
        b.rows == b.cols,
        a.cols == b.rows,
        0 <= i < r.rows,
        0 <= c < r.cols,
    ensures
        r.entries[i * r.cols + c] == sum_of_products(
            Seq::new(a.cols, |k: int| a.entries[i * a.cols + k]),
            Seq::new(a.cols, |k: int| b.entries[c * b.cols + k]),
        ),
{
    law_dot_entries_are_folds(mul_add, 0int, a, b, r, i, c);
    law_dot_square_pairs_rows(b, c);
    lemma_fold_is_sum(mul_add, 0int, a.row(i), dot_operands(b, c, a.cols));
    assert(a.row(i) =~= Seq::new(a.cols, |k: int| a.entries[i * a.cols + k]));
    assert(b.row(c) =~= Seq::new(a.cols, |k: int| b.entries[c * b.cols + k]));
}

} // verus!
