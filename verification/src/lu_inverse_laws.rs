//! The inverse computed from the LU factors, multiplied by the matrix.

use vstd::prelude::*;
use crate::lu::{
    backward_solution, forward_solution, inverse_spec, is_permutation, is_unit_lower, law_lu_rounds_shape,
    lemma_backward_solution_len, lemma_forward_solution_len, lu_rounds, permuted_unit, solved_column, LuFactors,
};
use crate::lu_laws::{
    exact_sub_mul, law_backward_solves_upper, law_forward_solves_lower, law_inverse_columns_are_solutions, sum_of_products,
};
use crate::lu_product_laws::{law_lu_factors_multiply_to_matrix, partial_product};
use crate::matrix::MatrixModel;
use crate::ops::apply2;

verus! {

/// The sum of `t[i][m] * v[m]` over `lo <= m < hi`, for an `n` by `n` table
/// `t` held row by row: row `i` of `t` times the vector `v`, over those
/// columns.
pub open spec fn row_dot(t: Seq<int>, n: int, i: int, v: Seq<int>, lo: int, hi: int) -> int
    decreases hi - lo,
{
    if hi <= lo {
        0
    } else {
        row_dot(t, n, i, v, lo, hi - 1) + t[i * n + (hi - 1)] * v[hi - 1]
    }
}

/// A sum over `lo .. hi` is the sum over `lo .. mid` plus that over
/// `mid .. hi`.
pub proof fn lemma_row_dot_split(t: Seq<int>, n: int, i: int, v: Seq<int>, lo: int, mid: int, hi: int)
    requires
        lo <= mid <= hi,
    ensures
        row_dot(t, n, i, v, lo, hi) == row_dot(t, n, i, v, lo, mid) + row_dot(t, n, i, v, mid, hi),
    decreases hi - mid,
{
    if hi > mid {
        lemma_row_dot_split(t, n, i, v, lo, mid, hi - 1);
    }
}

/// A sum over columns where the row is zero is zero.
pub proof fn lemma_row_dot_zero(t: Seq<int>, n: int, i: int, v: Seq<int>, lo: int, hi: int)
    requires
        forall|m: int| lo <= m < hi ==> #[trigger] t[i * n + m] == 0int,
    ensures
        row_dot(t, n, i, v, lo, hi) == 0,
    decreases hi - lo,
{
    if hi > lo {
        lemma_row_dot_zero(t, n, i, v, lo, hi - 1);
        assert(t[i * n + (hi - 1)] == 0int);
    }
}

/// The sum of products of a piece of row `i` and the matching piece of `v`
/// is `row_dot` over those columns.
pub proof fn lemma_sum_of_products_is_row_dot(t: Seq<int>, n: int, i: int, v: Seq<int>, s: int, c: int)
    requires
        0 <= s,
        0 <= c,
        s + c <= v.len(),
    ensures
        sum_of_products(Seq::new(c as nat, |q: int| t[i * n + s + q]), v.subrange(s, s + c)) == row_dot(t, n, i, v, s, s + c),
    decreases c,
{
    let xs = Seq::new(c as nat, |q: int| t[i * n + s + q]);
    let ys = v.subrange(s, s + c);
    if c > 0 {
        lemma_sum_of_products_is_row_dot(t, n, i, v, s, c - 1);
        assert(xs.drop_last() =~= Seq::new((c - 1) as nat, |q: int| t[i * n + s + q]));
        assert(ys.drop_last() =~= v.subrange(s, s + c - 1));
        assert(xs.last() == t[i * n + (s + c - 1)]);
    }
}

/// With exact `sub_mul`, forward substitution against a unit lower
/// triangular `l` gives `y` with row `i` of `l` times `y` equal to `rhs[i]`.
pub proof fn lemma_forward_multiplies_back<S: Fn(int, int, int) -> int>(sub_mul: S, l: Seq<int>, rhs: Seq<int>, n: int, i: int)
    requires
        exact_sub_mul(sub_mul),
        is_unit_lower(l, n, 0int, 1int),
        0 <= i < n,
    ensures
        row_dot(l, n, i, forward_solution(sub_mul, l, rhs, n, n), 0, n) == rhs[i],
{
    let y = forward_solution(sub_mul, l, rhs, n, n);
    lemma_forward_solution_len(sub_mul, l, rhs, n, n);
    law_forward_solves_lower(sub_mul, l, rhs, n, n, i);
    lemma_sum_of_products_is_row_dot(l, n, i, y, 0, i);
    assert(Seq::new(i as nat, |q: int| l[i * n + 0 + q]) =~= Seq::new(i as nat, |t: int| l[i * n + t]));
    assert(y.subrange(0, i) =~= y.take(i));
    lemma_row_dot_split(l, n, i, y, 0, i, n);
    lemma_row_dot_split(l, n, i, y, i, i + 1, n);
    assert(l[i * n + i] == 1int);
    assert(row_dot(l, n, i, y, i, i + 1) == row_dot(l, n, i, y, i, i) + l[i * n + i] * y[i]);
    assert(row_dot(l, n, i, y, 0, i) == sum_of_products(Seq::new(i as nat, |t: int| l[i * n + t]), y.take(i)));
    assert forall|m: int| i + 1 <= m < n implies #[trigger] l[i * n + m] == 0int by {}
    lemma_row_dot_zero(l, n, i, y, i + 1, n);
}

/// Division of `a` by `b` on integers, where it leaves no remainder.
pub open spec fn exact_division<D: Fn(int, int) -> int>(divide: D) -> bool {
    forall|a: int, b: int, r: int| #[trigger] call_ensures(divide, (a, b), r) <==> r == a / b
}

/// With exact `sub_mul` and integer division, backward substitution against
/// an upper triangular `u` gives `x` with row `i` of `u` times `x` equal to
/// `y[i]`, where the division of row `i` is by a nonzero diagonal entry and
/// leaves no remainder.
pub proof fn lemma_backward_multiplies_back<S: Fn(int, int, int) -> int, D: Fn(int, int) -> int>(
    sub_mul: S,
    divide: D,
    u: Seq<int>,
    y: Seq<int>,
    n: int,
    i: int,
)
    requires
        exact_sub_mul(sub_mul),
        exact_division(divide),
        0 <= i < n,
        forall|m: int| 0 <= m < i ==> #[trigger] u[i * n + m] == 0int,
        u[i * n + i] != 0,
        (y[i] - row_dot(u, n, i, backward_solution(sub_mul, divide, u, y, n, n), i + 1, n)) % u[i * n + i] == 0,
    ensures
        row_dot(u, n, i, backward_solution(sub_mul, divide, u, y, n, n), 0, n) == y[i],
{
    let x = backward_solution(sub_mul, divide, u, y, n, n);
    lemma_backward_solution_len(sub_mul, divide, u, y, n, n);
    law_backward_solves_upper(sub_mul, divide, u, y, n, i);
    lemma_sum_of_products_is_row_dot(u, n, i, x, i + 1, n - i - 1);
    assert(Seq::new((n - i - 1) as nat, |q: int| u[i * n + (i + 1) + q])
        =~= Seq::new((n - i - 1) as nat, |t: int| u[i * n + i + 1 + t]));
    let d = u[i * n + i];
    let num = y[i] - row_dot(u, n, i, x, i + 1, n);
    assert(call_ensures(divide, (num, d), num / d));
    assert(x[i] == num / d);
    vstd::arithmetic::div_mod::lemma_fundamental_div_mod(num, d);
    assert(d * x[i] == num);
    lemma_row_dot_split(u, n, i, x, 0, i, n);
    lemma_row_dot_split(u, n, i, x, i, i + 1, n);
    lemma_row_dot_zero(u, n, i, x, 0, i);
    assert(row_dot(u, n, i, x, i, i + 1) == row_dot(u, n, i, x, i, i) + u[i * n + i] * x[i]);
    assert(x[i] == apply2(
        divide,
        y[i] - sum_of_products(Seq::new((n - i - 1) as nat, |t: int| u[i * n + i + 1 + t]), x.subrange(i + 1, n)),
        u[i * n + i],
    ));
    assert(sum_of_products(Seq::new((n - i - 1) as nat, |t: int| u[i * n + i + 1 + t]), x.subrange(i + 1, n))
        == row_dot(u, n, i, x, i + 1, n));
}

/// The sum over the columns `m < b` of entry `(i, m)` of the product of `l`
/// and `u` (over their first `k` columns and rows) times `x[m]`.
pub open spec fn product_row_dot(l: Seq<int>, u: Seq<int>, n: int, i: int, x: Seq<int>, k: int, b: int) -> int
    decreases b,
{
    if b <= 0 {
        0
    } else {
        product_row_dot(l, u, n, i, x, k, b - 1) + partial_product(l, u, n, i, b - 1, k) * x[b - 1]
    }
}

/// The sum over the rows `t < k` of `l[i][t]` times row `t` of `u` times `x`
/// over the columns `m < b`.
pub open spec fn weighted_row_dots(l: Seq<int>, u: Seq<int>, n: int, i: int, x: Seq<int>, k: int, b: int) -> int
    decreases k,
{
    if k <= 0 {
        0
    } else {
        weighted_row_dots(l, u, n, i, x, k - 1, b) + l[i * n + (k - 1)] * row_dot(u, n, k - 1, x, 0, b)
    }
}

/// With no rows of `u`, the product contributes nothing.
pub proof fn lemma_product_row_dot_empty(l: Seq<int>, u: Seq<int>, n: int, i: int, x: Seq<int>, b: int)
    ensures
        product_row_dot(l, u, n, i, x, 0, b) == 0,
    decreases b,
{
    if b > 0 {
        lemma_product_row_dot_empty(l, u, n, i, x, b - 1);
        assert(partial_product(l, u, n, i, b - 1, 0) == 0);
    }
}

/// One more row of `u` adds `l[i][k - 1]` times that row times `x`.
pub proof fn lemma_product_row_dot_step(l: Seq<int>, u: Seq<int>, n: int, i: int, x: Seq<int>, k: int, b: int)
    requires
        k >= 1,
    ensures
        product_row_dot(l, u, n, i, x, k, b)
            == product_row_dot(l, u, n, i, x, k - 1, b) + l[i * n + (k - 1)] * row_dot(u, n, k - 1, x, 0, b),
    decreases b,
{
    if b > 0 {
        lemma_product_row_dot_step(l, u, n, i, x, k, b - 1);
        let p = partial_product(l, u, n, i, b - 1, k - 1);
        let lk = l[i * n + (k - 1)];
        let uu = u[(k - 1) * n + (b - 1)];
        let xv = x[b - 1];
        let rd = row_dot(u, n, k - 1, x, 0, b - 1);
        assert(partial_product(l, u, n, i, b - 1, k) == p + lk * uu);
        assert(row_dot(u, n, k - 1, x, 0, b) == rd + uu * xv);
        assert((p + lk * uu) * xv + lk * rd == p * xv + lk * (rd + uu * xv)) by (nonlinear_arith);
    }
}

/// The sums may be taken in either order: `(l u) x == l (u x)` on row `i`.
pub proof fn lemma_product_row_dot_regroup(l: Seq<int>, u: Seq<int>, n: int, i: int, x: Seq<int>, k: int, b: int)
    requires
        k >= 0,
    ensures
        product_row_dot(l, u, n, i, x, k, b) == weighted_row_dots(l, u, n, i, x, k, b),
    decreases k,
{
    if k == 0 {
        lemma_product_row_dot_empty(l, u, n, i, x, b);
    } else {
        lemma_product_row_dot_regroup(l, u, n, i, x, k - 1, b);
        lemma_product_row_dot_step(l, u, n, i, x, k, b);
    }
}

/// Where row `t` of `u` times `x` is `y[t]` for each `t < k`, the weighted
/// sum is row `i` of `l` times `y`.
pub proof fn lemma_weighted_row_dots_solved(l: Seq<int>, u: Seq<int>, n: int, i: int, x: Seq<int>, y: Seq<int>, k: int, b: int)
    requires
        forall|t: int| 0 <= t < k ==> #[trigger] row_dot(u, n, t, x, 0, b) == y[t],
    ensures
        weighted_row_dots(l, u, n, i, x, k, b) == row_dot(l, n, i, y, 0, k),
    decreases k,
{
    if k > 0 {
        lemma_weighted_row_dots_solved(l, u, n, i, x, y, k - 1, b);
        assert(row_dot(u, n, k - 1, x, 0, b) == y[k - 1]);
    }
}

/// Where row `r` of `a` is row `i` of the product of `l` and `u`, their
/// products with `x` agree.
pub proof fn lemma_product_row_dot_of_row(a: Seq<int>, l: Seq<int>, u: Seq<int>, n: int, r: int, i: int, x: Seq<int>, k: int, b: int)
    requires
        forall|m: int| 0 <= m < b ==> #[trigger] a[r * n + m] == partial_product(l, u, n, i, m, k),
    ensures
        row_dot(a, n, r, x, 0, b) == product_row_dot(l, u, n, i, x, k, b),
    decreases b,
{
    if b > 0 {
        lemma_product_row_dot_of_row(a, l, u, n, r, i, x, k, b - 1);
        assert(a[r * n + (b - 1)] == partial_product(l, u, n, i, b - 1, k));
    }
}

/// A permutation of `0 .. n` takes every value in `0 .. n`.
pub proof fn lemma_permutation_onto(perm: Seq<usize>, n: nat, r: int)
    requires
        is_permutation(perm, n),
        0 <= r < n,
    ensures
        exists|i: int| 0 <= i < n && perm[i] as int == r,
{
    let dom = vstd::set_lib::set_int_range(0, n as int);
    let f = |i: int| perm[i] as int;
    let img = dom.map(f);
    vstd::set_lib::lemma_int_range(0, n as int);
    assert forall|x1: int, x2: int| dom.contains(x1) && dom.contains(x2) && #[trigger] f(x1) == #[trigger] f(x2) implies x1 == x2 by {
        if x1 < x2 {
            assert(perm[x1] != perm[x2]);
        } else if x2 < x1 {
            assert(perm[x2] != perm[x1]);
        }
    }
    assert(vstd::relations::injective_on(f, dom));
    vstd::set_lib::lemma_map_size(dom, img, f);
    assert forall|v: int| img.contains(v) implies dom.contains(v) by {
        let i = choose|i: int| dom.contains(i) && f(i) == v;
        assert(perm[i] < n);
    }
    assert(img.subset_of(dom));
    vstd::set_lib::lemma_subset_equality(img, dom);
    assert(dom.contains(r));
    assert(img.contains(r));
    let i = choose|i: int| dom.contains(i) && f(i) == r;
    assert(0 <= i < n && perm[i] as int == r);
}

/// Each division of the back substitution for column `col` of the inverse
/// is by a nonzero diagonal entry of the upper factor and leaves no
/// remainder.
pub open spec fn back_substitution_exact<S: Fn(int, int, int) -> int, D: Fn(int, int) -> int>(
    sub_mul: S,
    divide: D,
    st: LuFactors<int>,
    n: int,
    col: int,
) -> bool {
    let y = forward_solution(sub_mul, st.lower, permuted_unit(st.perm, col, 0int, 1int), n, n);
    let x = backward_solution(sub_mul, divide, st.upper, y, n, n);
    forall|i: int| 0 <= i < n ==> #[trigger] st.upper[i * n + i] != 0
        && (y[i] - row_dot(st.upper, n, i, x, i + 1, n)) % st.upper[i * n + i] == 0
}

/// Law: with `sub_mul` exact and `divide` integer division, and whatever
/// `magnitude`, `exceeds` and `negligible` give, the matrix times the
/// inverse it is given is the identity wherever every division was exact:
/// where the factorisation left nothing under the diagonal of the upper
/// factor and each division of the back substitution left no remainder,
/// row `r` of `a` times column `col` of the inverse is one where `r == col`
/// and zero elsewhere.
pub proof fn law_matrix_times_inverse_is_identity<M: Fn(int) -> int, G: Fn(int, int) -> bool, N: Fn(int) -> bool, D: Fn(int, int) -> int, S: Fn(int, int, int) -> int>(
    magnitude: M,
    exceeds: G,
    negligible: N,
    divide: D,
    sub_mul: S,
    a: MatrixModel<int>,
    r: int,
    col: int,
)
    requires
        exact_sub_mul(sub_mul),
        exact_division(divide),
        a.well_formed(),
        a.rows == a.cols,
        a.rows <= usize::MAX,
        0 <= r < a.rows,
        0 <= col < a.rows,
    ensures
        inverse_spec(magnitude, exceeds, negligible, divide, sub_mul, 0int, 1int, a) matches Ok(e) ==> {
            let n = a.rows as int;
            let st = lu_rounds(magnitude, exceeds, negligible, divide, sub_mul, 0int, 1int, a, n)->Ok_0;
            (forall|i: int, j: int| 0 <= j < i < n ==> #[trigger] st.upper[i * n + j] == 0int)
                && back_substitution_exact(sub_mul, divide, st, n, col)
                ==> row_dot(a.entries, n, r, Seq::new(a.rows, |m: int| e[m * n + col]), 0, n)
                    == if r == col { 1int } else { 0int }
        },
{
    let n = a.rows as int;
    match inverse_spec(magnitude, exceeds, negligible, divide, sub_mul, 0int, 1int, a) {
        Ok(e) => {
            let st = lu_rounds(magnitude, exceeds, negligible, divide, sub_mul, 0int, 1int, a, n)->Ok_0;
            if (forall|i: int, j: int| 0 <= j < i < n ==> #[trigger] st.upper[i * n + j] == 0int)
                && back_substitution_exact(sub_mul, divide, st, n, col) {
                law_lu_factors_multiply_to_matrix(magnitude, exceeds, negligible, divide, sub_mul, a);
                law_lu_rounds_shape(magnitude, exceeds, negligible, divide, sub_mul, 0int, 1int, a, n);
                let l = st.lower;
                let u = st.upper;
                let b = permuted_unit(st.perm, col, 0int, 1int);
                let y = forward_solution(sub_mul, l, b, n, n);
                let x = backward_solution(sub_mul, divide, u, y, n, n);
                lemma_backward_solution_len(sub_mul, divide, u, y, n, n);
                assert(x == solved_column(sub_mul, divide, 0int, 1int, st, n, col));
                let ecol = Seq::new(a.rows, |m: int| e[m * n + col]);
                assert forall|m: int| 0 <= m < n implies #[trigger] ecol[m] == x[m] by {
                    law_inverse_columns_are_solutions(magnitude, exceeds, negligible, divide, sub_mul, 0int, 1int, a, m, col);
                }
                assert(ecol =~= x);
                assert forall|t: int| 0 <= t < n implies #[trigger] row_dot(u, n, t, x, 0, n) == y[t] by {
                    assert forall|m: int| 0 <= m < t implies #[trigger] u[t * n + m] == 0int by {}
                    assert(u[t * n + t] != 0);
                    lemma_backward_multiplies_back(sub_mul, divide, u, y, n, t);
                }
                lemma_permutation_onto(st.perm, a.rows, r);
                let i = choose|i: int| 0 <= i < n && st.perm[i] as int == r;
                assert forall|m: int| 0 <= m < n implies #[trigger] a.entries[r * n + m] == partial_product(l, u, n, i, m, n) by {
                    assert(a.entries[st.perm[i] * n + m] == partial_product(l, u, n, i, m, n));
                }
                lemma_product_row_dot_of_row(a.entries, l, u, n, r, i, x, n, n);
                lemma_product_row_dot_regroup(l, u, n, i, x, n, n);
                lemma_weighted_row_dots_solved(l, u, n, i, x, y, n, n);
                lemma_forward_multiplies_back(sub_mul, l, b, n, i);
            }
        },
        Err(_) => {},
    }
}

} // verus!
